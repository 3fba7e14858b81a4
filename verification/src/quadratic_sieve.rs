//! The quadratic sieve: factor-base construction, modular square roots by
//! Tonelli-Shanks, sieving for smooth relations, and the factorization
//! pipeline.

use vstd::prelude::*;

verus! {

use vstd::arithmetic::power::lemma_pow_mod_noop;
use vstd::arithmetic::power::pow;
use vstd::arithmetic::power2::pow2;
use crate::congruence_class::CongruenceClass;
use crate::matrix::Scalar;
use crate::integers::mul_mod_u64;
use crate::integers::pow_mod_u64;
use crate::primes::is_prime_spec;

/// How far the factor-base builders scan for primes: the largest modulus the
/// verified modular arithmetic (and so `sqrt_mod`) supports.
pub const PRIME_SCAN_LIMIT: i64 = 0x8000_0000;

/// The Legendre symbol of `n` modulo the odd prime `p`, as the power
/// `n^((p-1)/2) mod p`.
pub open spec fn legendre_spec(n: int, p: int) -> int {
    pow(n, (((p - 1) / 2)) as nat) % p
}

/// `n` is a quadratic residue modulo the prime `p`: trivially so for `p == 2`,
/// and by Euler's criterion (a Legendre symbol equal to one) otherwise.
pub open spec fn is_qr(n: int, p: int) -> bool {
    p == 2 || legendre_spec(n, p) == 1
}

/// Trial-division primality test: `x` is prime exactly when no integer in
/// `[2, sqrt(x)]` divides it.
pub fn is_prime(x: i64) -> (r: bool)
    ensures
        r == is_prime_spec(x as int),
{
    if x < 2 {
        return false;
    }
    let xu = x as u64;
    let mut d: u64 = 2;
    while d <= xu / d
        invariant
            xu == x,
            x >= 2,
            2 <= d <= xu + 1,
            forall|e: int| 2 <= e < d ==> #[trigger] (x as int % e) != 0,
        decreases xu + 1 - d,
    {
        proof {
            vstd::arithmetic::div_mod::lemma_div_nonincreasing(xu as int, d as int);
            vstd::arithmetic::div_mod::lemma_fundamental_div_mod(xu as int, d as int);
            let q = xu as int / d as int;
            assert(d as int * d as int <= d as int * q) by (nonlinear_arith)
                requires
                    d as int <= q,
                    d >= 2,
            ;
            assert(d as int * q <= xu as int);
            assert(d + 1 <= xu) by (nonlinear_arith)
                requires
                    d as int * d as int <= xu as int,
                    d >= 2,
            ;
        }
        if xu % d == 0 {
            proof {
                assert(d < x) by (nonlinear_arith)
                    requires
                        d as int * d as int <= x as int,
                        d >= 2,
                ;
            }
            return false;
        }
        d = d + 1;
    }
    proof {
        vstd::arithmetic::div_mod::lemma_fundamental_div_mod(xu as int, d as int);
        let q = xu as int / d as int;
        assert(q <= d - 1);
        assert(d as int * q <= d as int * (d - 1)) by (nonlinear_arith)
            requires
                q <= d - 1,
                d >= 2,
        ;
        assert((xu as int) < d as int * d as int) by (nonlinear_arith)
            requires
                xu as int == d as int * q + xu as int % d as int,
                (xu as int % d as int) < d,
                d as int * q <= d as int * (d - 1),
                d >= 2,
        ;
        lemma_no_divisor_below_sqrt(x as int, d as int);
    }
    true
}

/// If `x >= 2` has no divisor in `[2, d)` and `d * d > x`, then `x` is prime.
proof fn lemma_no_divisor_below_sqrt(x: int, d: int)
    requires
        x >= 2,
        d >= 2,
        d * d > x,
        forall|e: int| 2 <= e < d ==> #[trigger] (x % e) != 0,
    ensures
        is_prime_spec(x),
{
    assert forall|e: int| 2 <= e < x implies #[trigger] (x % e) != 0 by {
        if x % e == 0 {
            assert(e < d ==> x % e != 0);
            assert(e >= d);
            vstd::arithmetic::div_mod::lemma_fundamental_div_mod(x, e);
            let f = x / e;
            assert(x == e * f);
            assert(2 <= f && f < d) by (nonlinear_arith)
                requires
                    x == e * f,
                    2 <= e < x,
                    e >= d,
                    d * d > x,
                    d >= 2,
                    x >= 2,
            ;
            assert(x % f == 0) by {
                vstd::arithmetic::div_mod::lemma_mod_multiples_basic(e, f);
                assert(e * f == f * e) by (nonlinear_arith);
            }
        }
    }
}

/// All primes `p` with `x <= p < bound`, in increasing order.
pub fn primes_from(x: i64, bound: i64) -> (r: Vec<i64>)
    ensures
        forall|t: int|
            0 <= t < r@.len() ==> is_prime_spec(#[trigger] r@[t] as int) && x <= r@[t] < bound,
        forall|t1: int, t2: int| 0 <= t1 < t2 < r@.len() ==> r@[t1] < r@[t2],
        forall|p: int|
            x <= p < bound && is_prime_spec(p) ==> r@.contains(p as i64),
{
    let mut r: Vec<i64> = Vec::new();
    let mut p = x;
    while p < bound
        invariant
            x <= p || p == x,
            forall|t: int|
                0 <= t < r@.len() ==> is_prime_spec(#[trigger] r@[t] as int) && x <= r@[t] < bound
                    && r@[t] < p,
            forall|t1: int, t2: int| 0 <= t1 < t2 < r@.len() ==> r@[t1] < r@[t2],
            forall|q: int| x <= q < p && is_prime_spec(q) ==> r@.contains(q as i64),
        decreases bound - p,
    {
        if is_prime(p) {
            let ghost old_r = r@;
            r.push(p);
            proof {
                assert(r@[r@.len() - 1] == p);
                assert forall|q: int| x <= q < p + 1 && is_prime_spec(q) implies r@.contains(
                    q as i64,
                ) by {
                    if q < p {
                        let t = choose|t: int| 0 <= t < old_r.len() && old_r[t] == q as i64;
                        assert(r@[t] == q as i64);
                    }
                }
            }
        }
        p = p + 1;
    }
    r
}

/// All primes below `bound`, in increasing order.
pub fn primes(bound: i64) -> (r: Vec<i64>)
    ensures
        forall|t: int|
            0 <= t < r@.len() ==> is_prime_spec(#[trigger] r@[t] as int) && 2 <= r@[t] < bound,
        forall|t1: int, t2: int| 0 <= t1 < t2 < r@.len() ==> r@[t1] < r@[t2],
        forall|p: int| 2 <= p < bound && is_prime_spec(p) ==> r@.contains(p as i64),
{
    primes_from(2, bound)
}

/// The Legendre symbol `n^((p-1)/2) mod p`.
pub fn legendre(n: i64, p: i64) -> (r: i64)
    requires
        is_prime_spec(p as int),
        n > i64::MIN,
        (p as int - 1) / 2 <= u32::MAX,
    ensures
        r == legendre_spec(n as int, p as int),
        0 <= r < p,
{
    let e = (p as u64 - 1) / 2;
    let bm = crate::integers::euclid_mod_i64(n, p);
    let r = pow_mod_u64(bm, e, p as u64);
    proof {
        lemma_pow_mod_noop(n as int, e as nat, p as int);
    }
    r as i64
}

/// Whether `n` is a quadratic residue modulo the prime `p`.
pub fn is_quadratic_residue(n: i64, p: i64) -> (r: bool)
    requires
        is_prime_spec(p as int),
        n > i64::MIN,
        (p as int - 1) / 2 <= u32::MAX,
    ensures
        r == is_qr(n as int, p as int),
{
    if p == 2 {
        true
    } else {
        legendre(n, p) == 1
    }
}

/// All primes below `bound` for which `n` is a quadratic residue, in
/// increasing order.
pub fn legendre_primes(n: i64, bound: i64) -> (r: Vec<i64>)
    requires
        n > i64::MIN,
        bound <= 0x8000_0000,
    ensures
        forall|t: int|
            0 <= t < r@.len() ==> is_prime_spec(#[trigger] r@[t] as int) && 2 <= r@[t] < bound
                && is_qr(n as int, r@[t] as int),
        forall|t1: int, t2: int| 0 <= t1 < t2 < r@.len() ==> r@[t1] < r@[t2],
        forall|p: int|
            2 <= p < bound && is_prime_spec(p) && is_qr(n as int, p) ==> r@.contains(p as i64),
{
    let mut r: Vec<i64> = Vec::new();
    let mut p: i64 = 2;
    while p < bound
        invariant
            2 <= p,
            n > i64::MIN,
            bound <= 0x8000_0000,
            forall|t: int|
                0 <= t < r@.len() ==> is_prime_spec(#[trigger] r@[t] as int) && 2 <= r@[t] < p
                    && r@[t] < bound && is_qr(n as int, r@[t] as int),
            forall|t1: int, t2: int| 0 <= t1 < t2 < r@.len() ==> r@[t1] < r@[t2],
            forall|q: int|
                2 <= q < p && is_prime_spec(q) && is_qr(n as int, q) ==> r@.contains(q as i64),
        decreases bound - p,
    {
        if is_prime(p) && is_quadratic_residue(n, p) {
            let ghost old_r = r@;
            r.push(p);
            proof {
                assert(r@[r@.len() - 1] == p);
                assert forall|q: int|
                    2 <= q < p + 1 && is_prime_spec(q) && is_qr(n as int, q) implies r@.contains(
                    q as i64,
                ) by {
                    if q < p {
                        let t = choose|t: int| 0 <= t < old_r.len() && old_r[t] == q as i64;
                        assert(r@[t] == q as i64);
                    }
                }
            }
        }
        p = p + 1;
    }
    r
}

/// The first `size` ascending primes for which `n` is a quadratic residue,
/// scanning as far as the verified modular arithmetic reaches.
pub fn factor_base(n: i64, size: usize) -> (r: Vec<i64>)
    requires
        2 <= n <= 0x8000_0000,
    ensures
        r@ == qr_primes_take(n as int, size as int, 2),
        r@.len() <= size,
        forall|t: int|
            0 <= t < r@.len() ==> is_prime_spec(#[trigger] r@[t] as int) && 2 <= r@[t]
                <= PRIME_SCAN_LIMIT && is_qr(n as int, r@[t] as int),
        forall|t1: int, t2: int| 0 <= t1 < t2 < r@.len() ==> r@[t1] < r@[t2],
        forall|p: int|
            2 <= p <= PRIME_SCAN_LIMIT && is_prime_spec(p) && is_qr(n as int, p) && (r@.len()
                < size || (r@.len() > 0 && p < r@[r@.len() - 1])) ==> r@.contains(p as i64),
{
    let mut r: Vec<i64> = Vec::new();
    let mut p: i64 = 2;
    while p <= PRIME_SCAN_LIMIT && r.len() < size
        invariant
            2 <= p <= PRIME_SCAN_LIMIT + 1,
            2 <= n <= 0x8000_0000,
            r@.len() <= size,
            qr_primes_take(n as int, size as int, 2) == r@ + qr_primes_take(
                n as int,
                size - r@.len(),
                p as int,
            ),
            forall|t: int|
                0 <= t < r@.len() ==> is_prime_spec(#[trigger] r@[t] as int) && 2 <= r@[t] < p
                    && r@[t] <= PRIME_SCAN_LIMIT && is_qr(n as int, r@[t] as int),
            forall|t1: int, t2: int| 0 <= t1 < t2 < r@.len() ==> r@[t1] < r@[t2],
            forall|q: int|
                2 <= q < p && is_prime_spec(q) && is_qr(n as int, q) ==> r@.contains(q as i64),
        decreases PRIME_SCAN_LIMIT + 1 - p,
    {
        if is_prime(p) && is_quadratic_residue(n, p) {
            let ghost old_r = r@;
            r.push(p);
            proof {
                assert(r@[r@.len() - 1] == p);
                assert forall|q: int|
                    2 <= q < p + 1 && is_prime_spec(q) && is_qr(n as int, q) implies r@.contains(
                    q as i64,
                ) by {
                    if q < p {
                        let t = choose|t: int| 0 <= t < old_r.len() && old_r[t] == q as i64;
                        assert(r@[t] == q as i64);
                    }
                }
            }
        }
        p = p + 1;
    }
    proof {
        assert forall|q: int|
            2 <= q <= n && is_prime_spec(q) && is_qr(n as int, q) && (r@.len() < size || (r@.len()
                > 0 && q < r@[r@.len() - 1])) implies r@.contains(q as i64) by {
            if r@.len() < size {
                assert(p > n);
            } else {
                assert(r@[r@.len() - 1] < p);
            }
        }
    }
    r
}

/// Repeated modular squaring, the stepping engine of the order search in
/// Tonelli-Shanks.
pub struct Squaring {
    pub a: i64,
    pub m: i64,
}

impl Squaring {
    pub fn new(a: i64, m: i64) -> (r: Self)
        ensures
            r.a == a,
            r.m == m,
    {
        Squaring { a, m }
    }

    /// Replace `a` by `a * a mod m` and return it.
    pub fn step(&mut self) -> (r: i64)
        requires
            old(self).m >= 1,
            0 <= old(self).a < old(self).m,
        ensures
            final(self).m == old(self).m,
            final(self).a as int == (old(self).a as int * old(self).a as int) % (
            old(self).m as int),
            r == final(self).a,
            0 <= final(self).a < final(self).m,
    {
        let next = mul_mod_u64(self.a as u64, self.a as u64, self.m as u64);
        self.a = next as i64;
        self.a
    }
}

/// Strip all factors `d` from the nonzero `x`: returns `(y, i)` with
/// `x == y * d^i` and `d` no longer dividing `y`; `y` keeps the sign of `x`.
pub fn div_while(x: i64, d: i64) -> (r: (i64, i64))
    requires
        x != 0,
        d >= 2,
    ensures
        x as int == r.0 as int * pow(d as int, r.1 as nat),
        r.0 as int % (d as int) != 0,
        r.0 != 0,
        (x > 0) == (r.0 > 0),
        r.1 >= 0,
{
    let ghost xm = vstd::math::abs(x as int);
    let mut xu = crate::integers::abs_u64(x);
    let mut i: u64 = 0;
    let du = d as u64;
    proof {
        vstd::arithmetic::power::lemma_pow0(d as int);
    }
    while xu % du == 0
        invariant
            du == d,
            d >= 2,
            xu >= 1,
            xm == vstd::math::abs(x as int),
            xm as int == xu as int * pow(d as int, i as nat),
            i + xu <= xm,
        decreases xu,
    {
        proof {
            vstd::arithmetic::div_mod::lemma_fundamental_div_mod(xu as int, du as int);
            vstd::arithmetic::div_mod::lemma_div_pos_is_pos(xu as int, du as int);
            let q = xu as int / du as int;
            assert(xu as int == du as int * q);
            assert(q >= 1) by (nonlinear_arith)
                requires
                    xu as int == du as int * q,
                    xu >= 1,
                    du >= 2,
                    q >= 0,
            ;
            assert(q * du as int <= xu as int && 2 * q <= xu as int) by (nonlinear_arith)
                requires
                    xu as int == du as int * q,
                    du >= 2,
                    q >= 1,
            ;
            vstd::arithmetic::power::lemma_pow1(d as int);
            vstd::arithmetic::power::lemma_pow_adds(d as int, 1, i as nat);
            assert(pow(d as int, (i + 1) as nat) == d as int * pow(d as int, i as nat));
            assert(q * pow(d as int, (i + 1) as nat) == (q * d as int) * pow(d as int, i as nat))
                by (nonlinear_arith)
                requires
                    pow(d as int, (i + 1) as nat) == d as int * pow(d as int, i as nat),
            ;
            assert(q * du as int == du as int * q) by (nonlinear_arith);
        }
        xu = xu / du;
        i = i + 1;
    }
    let r0: i64 = if x > 0 {
        xu as i64
    } else if xu == 9223372036854775808u64 {
        i64::MIN
    } else {
        -(xu as i64)
    };
    proof {
        assert(x as int == r0 as int * pow(d as int, i as nat)) by (nonlinear_arith)
            requires
                xm as int == xu as int * pow(d as int, i as nat),
                (x > 0 && xm == x as int && r0 == xu as int) || ((x as int) < 0 && xm == -(
                x as int) && r0 as int == -(xu as int)),
        ;
        if r0 as int % (d as int) == 0 {
            crate::integers::lemma_divides_mod(d as int, r0 as int);
            let k = choose|k: int| r0 as int == #[trigger] ((d as int) * k);
            assert(xu as int == (d as int) * (if x > 0 {
                k
            } else {
                -k
            })) by (nonlinear_arith)
                requires
                    r0 as int == (d as int) * k,
                    (x > 0 && r0 == xu as int) || ((x as int) < 0 && r0 as int == -(xu as int)),
            ;
            vstd::arithmetic::div_mod::lemma_mod_multiples_basic(
                if x > 0 {
                    k
                } else {
                    -k
                },
                d as int,
            );
            assert(((d as int) * (if x > 0 {
                k
            } else {
                -k
            })) == ((if x > 0 {
                k
            } else {
                -k
            }) * (d as int))) by (nonlinear_arith);
            assert(false);
        }
    }
    (r0, i as i64)
}

/// An exponent-of-two witness that `p` has a quadratic non-residue below it
/// (every odd prime has one; the algorithm searches for it).
pub open spec fn has_nonresidue(p: int) -> bool {
    exists|z: int| 2 <= z < p && #[trigger] legendre_spec(z, p) == p - 1
}

/// Square `base` modulo `p` a total of `k` times: `base^(2^k) mod p`.
fn pow_pow2_mod(base: u64, k: u64, p: u64) -> (r: u64)
    requires
        p >= 2,
        base < p,
    ensures
        r as int == pow(base as int, pow2(k as nat)) % (p as int),
        r < p,
{
    let mut acc = base;
    let mut j: u64 = 0;
    proof {
        vstd::arithmetic::power2::lemma_pow2(0);
        vstd::arithmetic::power::lemma_pow0(2int);
        vstd::arithmetic::power::lemma_pow1(base as int);
        vstd::arithmetic::div_mod::lemma_small_mod(base as nat, p as nat);
        assert(pow2(0) == 1);
    }
    while j < k
        invariant
            p >= 2,
            acc < p,
            acc as int == pow(base as int, pow2(j as nat)) % (p as int),
            j <= k,
        decreases k - j,
    {
        let ghost e = pow2(j as nat);
        let nxt = mul_mod_u64(acc, acc, p);
        proof {
            vstd::arithmetic::div_mod::lemma_mul_mod_noop(
                pow(base as int, e) as int,
                pow(base as int, e) as int,
                p as int,
            );
            vstd::arithmetic::power::lemma_pow_adds(base as int, e, e);
            vstd::arithmetic::power2::lemma_pow2_unfold((j + 1) as nat);
            assert(pow2((j + 1) as nat) == 2 * pow2(j as nat));
            assert(e + e == pow2((j + 1) as nat));
        }
        acc = nxt;
        j = j + 1;
    }
    acc
}

/// Both square roots of `n` modulo the prime `p`, when `n` is a quadratic
/// residue, by the Tonelli-Shanks algorithm; `None` when `n` is not a
/// residue.
pub fn sqrt_mod(n: i64, p: i64) -> (r: Option<[i64; 2]>)
    requires
        is_prime_spec(p as int),
        n > i64::MIN,
        (p as int - 1) / 2 <= u32::MAX,
    ensures
        match r {
            Some(roots) => {
                &&& 0 <= roots[0] < p
                &&& 0 <= roots[1] < p
                &&& (roots[0] as int * roots[0] as int) % (p as int) == n as int % (p as int)
                &&& (roots[1] as int * roots[1] as int) % (p as int) == n as int % (p as int)
                &&& (roots[0] as int + roots[1] as int) % (p as int) == 0
                &&& (p == 2 ==> roots[0] == roots[1])
                &&& is_qr(n as int, p as int)
                &&& has_roots(n as int, p as int)
            },
            None => !has_roots(n as int, p as int),
        },
{
    let ghost pi = p as int;
    if p == 2 {
        let r0 = crate::integers::euclid_mod_i64(n, 2) as i64;
        proof {
            vstd::arithmetic::div_mod::lemma_small_mod(r0 as nat, 2nat);
            if r0 == 0 {
                assert((0int * 0int) % 2int == 0int % 2int);
                assert((0int + 0int) % 2int == 0);
            } else {
                assert((1int * 1int) % 2int == 1int % 2int);
                assert((1int + 1int) % 2int == 0);
            }
        }
        return Some([r0, r0]);
    }
    // p is an odd prime
    proof {
        assert(pi % 2int != 0);
    }
    let lg = legendre(n, p);
    if lg != 1 {
        return None;
    }
    let nm = crate::integers::euclid_mod_i64(n, p);
    proof {
        // a residue with Legendre symbol one is nonzero modulo p
        lemma_pow_mod_noop(n as int, ((pi - 1) / 2) as nat, pi);
        if nm == 0 {
            vstd::arithmetic::power::lemma0_pow(((pi - 1) / 2) as nat);
            vstd::arithmetic::div_mod::lemma_small_mod(0nat, p as nat);
            assert(legendre_spec(n as int, pi) == 0);
            assert(false);
        }
    }
    // write p - 1 = q * 2^s with q odd
    let (q, s) = div_while(p - 1, 2);
    let ghost qi = q as int;
    let ghost si = s as nat;
    proof {
        lemma_pow2_pow(si);
        // s >= 1 since p - 1 is even
        if s == 0 {
            vstd::arithmetic::power::lemma_pow0(2int);
            assert((pi - 1) % 2int == qi % 2int);
            lemma_odd_p_minus_one(pi);
            assert(false);
        }
        lemma_odd_p_minus_one(pi);
        // q <= (p - 1) / 2 <= u32::MAX
        lemma_q_bound(pi, qi, si as int);
    }
    // r = n^((q+1)/2), t = n^q: the invariant r^2 == t * n (mod p) holds
    let qe = q as u64;
    let he = (q as u64 + 1) / 2;
    let t0 = pow_mod_u64(nm, qe, p as u64);
    let r0 = pow_mod_u64(nm, he, p as u64);
    proof {
        lemma_initial_square(nm as int, qi, pi);
    }
    if s == 1 {
        // p == 3 (mod 4): n^((p+1)/4) is a root directly
        let rr = r0 as i64;
        proof {
            vstd::arithmetic::power::lemma_pow1(2int);
            assert(pi - 1 == qi * 2);
            vstd::arithmetic::div_mod::lemma_fundamental_div_mod(qi, 2);
            assert(pi == 4 * (qi / 2) + 3) by (nonlinear_arith)
                requires
                    pi - 1 == qi * 2,
                    qi == 2 * (qi / 2) + 1,
            ;
            vstd::arithmetic::div_mod::lemma_fundamental_div_mod_converse_mod(pi, 4, qi / 2, 3);
            assert(pi % 4 == 3);
            lemma_fast_path(n as int, nm as int, qi, pi, rr as int, t0 as int);
            lemma_root_nonzero(n as int, nm as int, pi, rr as int);
            lemma_second_root(pi, rr as int, n as int);
        }
        let r2 = p - rr;
        return Some([rr, r2]);
    }
    // general path: find the least witness z with Legendre symbol p - 1
    let mut z: i64 = 2;
    let mut zres: i64 = 0;
    let mut found = false;
    while z < p && !found
        invariant
            pi == p as int,
            is_prime_spec(pi),
            n > i64::MIN,
            p >= 3,
            (pi - 1) / 2 <= u32::MAX,
            2 <= z <= p,
            found ==> 2 <= zres < p && legendre_spec(zres as int, pi) == pi - 1,
            !found ==> forall|z2: int| 2 <= z2 < z ==> #[trigger] legendre_spec(z2, pi) != pi - 1,
        decreases p - z, (if found { 0int } else { 1int }),
    {
        let lz = legendre(z, p);
        if lz == p - 1 {
            zres = z;
            found = true;
        } else {
            z = z + 1;
        }
    }
    proof {
        // s >= 2 here, so p == 1 (mod 4)
        vstd::arithmetic::power::lemma_pow_adds(2int, 2, (si - 2) as nat);
        vstd::arithmetic::power::lemma_pow1(2int);
        assert(pow(2int, 2) == 4) by {
            vstd::arithmetic::power::lemma_pow_adds(2int, 1, 1);
        }
        assert(pow(2int, si) == 4 * pow(2int, (si - 2) as nat));
        assert(pi == 4 * (qi * pow(2int, (si - 2) as nat)) + 1) by (nonlinear_arith)
            requires
                pi - 1 == qi * pow(2int, si),
                pow(2int, si) == 4 * pow(2int, (si - 2) as nat),
        ;
        vstd::arithmetic::div_mod::lemma_fundamental_div_mod_converse_mod(
            pi,
            4,
            qi * pow(2int, (si - 2) as nat),
            1,
        );
        assert(pi % 4 == 1);
    }
    if !found {
        proof {
            assert(!has_nonresidue(pi));
        }
        return None;
    }
    proof {
        assert(2 <= zres < p && legendre_spec(zres as int, pi) == pi - 1);
        assert(has_nonresidue(pi));
    }
    let c0 = pow_mod_u64(zres as u64, qe, p as u64);
    proof {
        vstd::arithmetic::div_mod::lemma_small_mod(zres as nat, p as nat);
        vstd::arithmetic::div_mod::lemma_small_mod((p - 1) as nat, p as nat);
        vstd::arithmetic::div_mod::lemma_small_mod(1nat, p as nat);
        lemma_pow_mod_noop(n as int, ((pi - 1) / 2) as nat, pi);
        lemma_pow_mod_noop(zres as int, ((pi - 1) / 2) as nat, pi);
        assert(pow(zres as int, ((pi - 1) / 2) as nat) % pi == (pi - 1) % pi);
        assert(pow(nm as int, ((pi - 1) / 2) as nat) % pi == 1int % pi);
        lemma_order_setup(zres as int, qi, si, pi, c0 as int, pi - 1);
        lemma_order_setup(nm as int, qi, si, pi, t0 as int, 1int);
    }
    let mut m: u64 = s as u64;
    let mut c: u64 = c0;
    let mut t: u64 = t0;
    let mut r: u64 = r0;
    while t != 1
        invariant
            pi == p as int,
            is_prime_spec(pi),
            p >= 3,
            nm < p,
            1 <= nm,
            nm as int == n as int % pi,
            1 <= m,
            t < p,
            c < p,
            r < p,
            (r as int * r as int) % pi == (t as int * nm as int) % pi,
            pow(t as int, pow2((m - 1) as nat)) % pi == 1int % pi,
            pow(c as int, pow2((m - 1) as nat)) % pi == (pi - 1) % pi,
        decreases m,
    {
        proof {
            // m >= 2 inside the loop: with m == 1 the invariant forces t == 1
            if m == 1 {
                vstd::arithmetic::power2::lemma_pow2(0);
                vstd::arithmetic::power::lemma_pow0(2int);
                assert(pow2(0) == 1);
                vstd::arithmetic::power::lemma_pow1(t as int);
                vstd::arithmetic::div_mod::lemma_small_mod(t as nat, p as nat);
                vstd::arithmetic::div_mod::lemma_small_mod(1nat, p as nat);
                assert(false);
            }
        }
        // find the least i >= 1 with t^(2^i) == 1 (mod p)
        let mut tt = mul_mod_u64(t, t, p as u64);
        let mut i: u64 = 1;
        proof {
            vstd::arithmetic::power2::lemma_pow2(0);
            vstd::arithmetic::power2::lemma_pow2(1);
            vstd::arithmetic::power::lemma_pow0(2int);
            vstd::arithmetic::power::lemma_pow1(2int);
            assert(pow2(0) == 1 && pow2(1) == 2);
            vstd::arithmetic::power::lemma_pow1(t as int);
            vstd::arithmetic::power::lemma_pow_adds(t as int, 1, 1);
            vstd::arithmetic::div_mod::lemma_mul_mod_noop(t as int, t as int, pi);
            vstd::arithmetic::div_mod::lemma_small_mod(t as nat, p as nat);
        }
        while tt != 1
            invariant
                pi == p as int,
                is_prime_spec(pi),
                p >= 3,
                t < p,
                2 <= m,
                1 <= i <= m - 1,
                tt < p,
                tt as int == pow(t as int, pow2(i as nat)) % pi,
                pow(t as int, pow2((m - 1) as nat)) % pi == 1int % pi,
                forall|i2: int|
                    1 <= i2 < i ==> #[trigger] pow(t as int, pow2(i2 as nat)) % pi != 1int % pi,
            decreases m - 1 - i,
        {
            proof {
                vstd::arithmetic::div_mod::lemma_small_mod(1nat, p as nat);
                if i == m - 1 {
                    assert(false);
                }
                vstd::arithmetic::div_mod::lemma_mul_mod_noop(
                    pow(t as int, pow2(i as nat)),
                    pow(t as int, pow2(i as nat)),
                    pi,
                );
                vstd::arithmetic::power::lemma_pow_adds(t as int, pow2(i as nat), pow2(i as nat));
                vstd::arithmetic::power2::lemma_pow2_unfold((i + 1) as nat);
            }
            tt = mul_mod_u64(tt, tt, p as u64);
            i = i + 1;
        }
        proof {
            vstd::arithmetic::div_mod::lemma_small_mod(1nat, p as nat);
            assert(pow(t as int, pow2(i as nat)) % pi == 1int % pi);
        }
        // b = c^(2^(m - i - 1))
        let b = pow_pow2_mod(c, m - i - 1, p as u64);
        let rn = mul_mod_u64(r, b, p as u64);
        let cn = mul_mod_u64(b, b, p as u64);
        let tn = mul_mod_u64(t, cn, p as u64);
        proof {
            lemma_ts_step(
                pi,
                nm as int,
                m as nat,
                i as nat,
                t as int,
                c as int,
                r as int,
                b as int,
                rn as int,
                cn as int,
                tn as int,
            );
        }
        r = rn;
        c = cn;
        t = tn;
        m = i;
    }
    let rr = r as i64;
    proof {
        vstd::arithmetic::div_mod::lemma_small_mod(1nat, p as nat);
        vstd::arithmetic::div_mod::lemma_mul_mod_noop_left(1int, nm as int, pi);
        vstd::arithmetic::div_mod::lemma_small_mod(nm as nat, p as nat);
        assert((1int * nm as int) % pi == nm as int % pi);
        assert((rr as int * rr as int) % pi == nm as int % pi);
        assert(nm as int % pi == n as int % pi);
        lemma_root_nonzero(n as int, nm as int, pi, rr as int);
        lemma_second_root(pi, rr as int, n as int);
    }
    let r2 = p - rr;
    Some([rr, r2])
}

/// Divide all factors `p` out of `y` (with `divide_out(0, p) == 0`); the sign
/// of a nonzero `y` is kept.
pub open spec fn divide_out(y: int, p: int) -> int
    decreases vstd::math::abs(y) via divide_out_dec
{
    if y == 0 {
        0
    } else if p >= 2 && y % p == 0 {
        divide_out(y / p, p)
    } else {
        y
    }
}

#[via_fn]
proof fn divide_out_dec(y: int, p: int) {
    if y != 0 && p >= 2 && y % p == 0 {
        lemma_exact_div_shrinks(y, p);
    }
}

/// An exact division by at least two strictly shrinks a nonzero magnitude and
/// keeps the sign.
proof fn lemma_exact_div_shrinks(y: int, p: int)
    requires
        y != 0,
        p >= 2,
        y % p == 0,
    ensures
        vstd::math::abs(y / p) < vstd::math::abs(y),
        y > 0 ==> 1 <= y / p,
        y < 0 ==> y / p <= -1,
        y / p != 0,
{
    vstd::arithmetic::div_mod::lemma_fundamental_div_mod(y, p);
    let q = y / p;
    assert(y == p * q);
    if q == 0 {
        assert(p * 0 == 0) by (nonlinear_arith);
        assert(false);
    }
    assert((y > 0 ==> 1 <= q < y) && (y < 0 ==> y < q <= -1)) by (nonlinear_arith)
        requires
            y == p * q,
            p >= 2,
            q != 0,
            y != 0,
    ;
}

/// How many factors `p` the nonzero `y` holds (zero for `y == 0`).
pub open spec fn pmul(y: int, p: int) -> nat
    decreases vstd::math::abs(y) via pmul_dec
{
    if y == 0 {
        0
    } else if p >= 2 && y % p == 0 {
        1 + pmul(y / p, p)
    } else {
        0
    }
}

#[via_fn]
proof fn pmul_dec(y: int, p: int) {
    if y != 0 && p >= 2 && y % p == 0 {
        lemma_exact_div_shrinks(y, p);
    }
}

/// A value with all factors `d` stripped and exactly `j` of them recorded has
/// multiplicity `j`.
proof fn lemma_pmul_unique(x: int, d: int, v: int, j: nat)
    requires
        d >= 2,
        v != 0,
        x == v * pow(d, j),
        v % d != 0,
    ensures
        pmul(x, d) == j,
    decreases j,
{
    vstd::arithmetic::power::lemma_pow_positive(d, j);
    assert(x != 0) by (nonlinear_arith)
        requires
            x == v * pow(d, j),
            v != 0,
            pow(d, j) >= 1,
    ;
    if j == 0 {
        vstd::arithmetic::power::lemma_pow0(d);
    } else {
        vstd::arithmetic::power::lemma_pow1(d);
        vstd::arithmetic::power::lemma_pow_adds(d, 1, (j - 1) as nat);
        assert(pow(d, j) == d * pow(d, (j - 1) as nat));
        let w = v * pow(d, (j - 1) as nat);
        assert(x == d * w) by (nonlinear_arith)
            requires
                x == v * pow(d, j),
                pow(d, j) == d * pow(d, (j - 1) as nat),
                w == v * pow(d, (j - 1) as nat),
        ;
        vstd::arithmetic::div_mod::lemma_mod_multiples_basic(w, d);
        assert(w * d == d * w) by (nonlinear_arith);
        assert(x % d == 0);
        vstd::arithmetic::div_mod::lemma_div_multiples_vanish(w, d);
        assert(x / d == w);
        vstd::arithmetic::power::lemma_pow_positive(d, (j - 1) as nat);
        assert(w != 0) by (nonlinear_arith)
            requires
                w == v * pow(d, (j - 1) as nat),
                v != 0,
                pow(d, (j - 1) as nat) >= 1,
        ;
        lemma_pmul_unique(w, d, v, (j - 1) as nat);
    }
}

/// `y` with the factor-base primes `fb[0], .., fb[t-1]` fully divided out,
/// in order.
pub open spec fn applied(y: int, fb: Seq<i64>, t: int) -> int
    decreases t,
{
    if t <= 0 {
        y
    } else {
        divide_out(applied(y, fb, t - 1), fb[t - 1] as int)
    }
}

/// The ceiling of the square root of `n`: the least `m` with `m * m >= n`.
pub open spec fn ceil_sqrt(n: int) -> int {
    choose|m: int| m >= 0 && #[trigger] (m * m) >= n && (m - 1) * (m - 1) < n
}

/// `x` is smooth with respect to `fb`: dividing every factor-base prime fully
/// out of `x * x - n` leaves a unit.
pub open spec fn smooth_at(n: int, fb: Seq<i64>, x: int) -> bool {
    vstd::math::abs(applied(x * x - n, fb, fb.len() as int)) == 1
}

/// The smooth values of the sieving interval `[m, m + i)`, from offset `k` on.
pub open spec fn smooth_xs(n: int, fb: Seq<i64>, m: int, i: int, k: int) -> Seq<i64>
    decreases i - k,
{
    if k < 0 || k >= i {
        Seq::empty()
    } else {
        let rest = smooth_xs(n, fb, m, i, k + 1);
        if smooth_at(n, fb, m + k) {
            seq![(m + k) as i64] + rest
        } else {
            rest
        }
    }
}

/// Integers are congruent modulo `p` exactly when their difference vanishes.
proof fn lemma_mod_eq(a: int, b: int, p: int)
    requires
        p >= 1,
    ensures
        ((a - b) % p == 0) <==> (a % p == b % p),
{
    vstd::arithmetic::div_mod::lemma_sub_mod_noop(a, b, p);
    vstd::arithmetic::div_mod::lemma_mod_bound(a, p);
    vstd::arithmetic::div_mod::lemma_mod_bound(b, p);
    if a % p == b % p {
        vstd::arithmetic::div_mod::lemma_small_mod(0nat, p as nat);
        assert((a % p - b % p) % p == 0);
    }
    if (a - b) % p == 0 {
        assert((a % p - b % p) % p == 0);
        let d = a % p - b % p;
        if d != 0 {
            if d > 0 {
                vstd::arithmetic::div_mod::lemma_small_mod(d as nat, p as nat);
            } else {
                vstd::arithmetic::div_mod::lemma_fundamental_div_mod_converse_mod(d, p, -1, d + p);
            }
            assert(false);
        }
    }
}

/// The result of dividing out `p` keeps dividing `y`, is nonzero and of the
/// same sign for nonzero `y`, no larger in magnitude, and has no factor `p`
/// left.
proof fn lemma_divide_out_props(y: int, p: int)
    requires
        p >= 2,
    ensures
        crate::integers::divides(divide_out(y, p), y),
        y > 0 ==> 1 <= divide_out(y, p) <= y,
        y < 0 ==> y <= divide_out(y, p) <= -1,
        y == 0 ==> divide_out(y, p) == 0,
        divide_out(y, p) % p != 0 || divide_out(y, p) == 0,
        divide_out(divide_out(y, p), p) == divide_out(y, p),
    decreases vstd::math::abs(y),
{
    if y == 0 {
        assert(0int == 0int * 1);
    } else if y % p == 0 {
        lemma_exact_div_shrinks(y, p);
        lemma_divide_out_props(y / p, p);
        vstd::arithmetic::div_mod::lemma_fundamental_div_mod(y, p);
        assert(y == p * (y / p));
        // divides(d, y/p) and y == p * (y/p) imply divides(d, y)
        let d = divide_out(y / p, p);
        let k = choose|k: int| y / p == #[trigger] (d * k);
        assert(y == d * (k * p)) by (nonlinear_arith)
            requires
                y == p * (y / p),
                y / p == d * k,
        ;
    } else {
        assert(y == y * 1);
    }
}

/// Dividing out a prime that does not divide a divisor of `y` leaves the
/// value unchanged: if `v` divides `y` and `p` does not divide `y`, then
/// `divide_out(v, p) == v`.
proof fn lemma_divide_out_foreign(y: int, v: int, p: int)
    requires
        p >= 2,
        v >= 0,
        crate::integers::divides(v, y),
        y % p != 0,
    ensures
        divide_out(v, p) == v,
{
    if v == 0 {
        let k = choose|k: int| y == #[trigger] (0int * k);
        assert(y == 0) by (nonlinear_arith)
            requires
                y == 0int * k,
        ;
        vstd::arithmetic::div_mod::lemma_small_mod(0nat, p as nat);
        assert(false);
    }
    if v % p == 0 {
        // then p would divide y
        vstd::arithmetic::div_mod::lemma_fundamental_div_mod(v, p);
        let kv = choose|k: int| y == #[trigger] (v * k);
        assert(y == p * ((v / p) * kv)) by (nonlinear_arith)
            requires
                v == p * (v / p),
                y == v * kv,
        ;
        vstd::arithmetic::div_mod::lemma_mod_multiples_basic((v / p) * kv, p);
        assert(p * ((v / p) * kv) == ((v / p) * kv) * p) by (nonlinear_arith);
        assert(false);
    }
}

/// A sieve position missed by both root strides holds a value the prime does
/// not divide.
proof fn lemma_unhit_position(n: int, p: int, m: int, k: int, r0: int, r1: int)
    requires
        is_prime_spec(p),
        0 <= r0 < p,
        0 <= r1 < p,
        (r0 * r0) % p == n % p,
        (r0 + r1) % p == 0,
        m >= 0,
        k >= 0,
        k % p != (r0 - m) % p,
        k % p != (r1 - m) % p,
    ensures
        ((m + k) * (m + k) - n) % p != 0,
{
    let x = m + k;
    if (x * x - n) % p == 0 {
        // x^2 == r0^2 (mod p), so p divides (x + r0)(x - r0)
        lemma_mod_eq(x * x, n, p);
        lemma_mod_eq(r0 * r0, n, p);
        lemma_mod_eq(x * x, r0 * r0, p);
        assert((x * x - r0 * r0) % p == 0);
        assert((x + r0) * (x - r0) == x * x - r0 * r0) by (nonlinear_arith);
        crate::primes::lemma_prime_divides_product(p, x + r0, x - r0);
        if (x - r0) % p == 0 {
            // k == r0 - m (mod p)
            lemma_mod_eq(x, r0, p);
            lemma_mod_eq(k, r0 - m, p);
            assert(k - (r0 - m) == x - r0);
            assert(false);
        } else {
            // x == -r0 == r1 (mod p)
            assert((x + r0) % p == 0);
            lemma_mod_eq(x + r0, 0, p);
            vstd::arithmetic::div_mod::lemma_small_mod(0nat, p as nat);
            lemma_mod_eq(r0 + r1, 0, p);
            lemma_mod_eq(x, r1, p);
            assert((x - r1) - ((x + r0) - (r0 + r1)) == 0);
            lemma_mod_eq(x - r1, (x + r0) - (r0 + r1), p);
            lemma_mod_eq(x + r0, r0 + r1, p);
            assert((x - r1) % p == 0);
            lemma_mod_eq(k, r1 - m, p);
            assert(k - (r1 - m) == x - r1);
            assert(false);
        }
    }
}

/// The ceiling square root: the least `m` whose square reaches `n`.
pub fn isqrt_ceil(n: i64) -> (m: i64)
    requires
        1 <= n <= 0x8000_0000,
    ensures
        m == ceil_sqrt(n as int),
        m >= 1,
        m as int * m as int >= n,
        (m as int - 1) * (m as int - 1) < n,
        m <= n,
{
    let nu = n as u64;
    let mut mu: u64 = 0;
    while mu * mu < nu
        invariant
            nu == n,
            1 <= n <= 0x8000_0000,
            mu <= n,
            mu as int * mu as int <= 0x1_0000_0000_0000,
            mu == 0 || (mu as int - 1) * (mu as int - 1) < n,
        decreases nu - mu,
    {
        proof {
            if mu >= 1 {
                assert(mu + 1 <= nu) by (nonlinear_arith)
                    requires
                        (mu as int * mu as int) < nu as int,
                        mu >= 1,
                ;
            }
            assert((mu as int + 1) * (mu as int + 1) <= 0x1_0000_0000_0000) by (nonlinear_arith)
                requires
                    (mu as int * mu as int) < 0x1_0000_0000,
                    mu >= 0,
            ;
        }
        mu = mu + 1;
    }
    let m = mu as i64;
    proof {
        assert(m >= 1) by (nonlinear_arith)
            requires
                m as int * m as int >= n,
                n >= 1,
                m >= 0,
        ;
        assert(m as int >= 0 && m as int * m as int >= n && (m as int - 1) * (m as int - 1) < n);
        let mm = ceil_sqrt(n as int);
        assert(mm >= 0 && mm * mm >= n && (mm - 1) * (mm - 1) < n);
        lemma_ceil_sqrt_unique(n as int, m as int, mm);
    }
    m
}

/// The least value whose square reaches `n` is unique.
proof fn lemma_ceil_sqrt_unique(n: int, m1: int, m2: int)
    requires
        m1 >= 0,
        m2 >= 0,
        m1 * m1 >= n,
        m2 * m2 >= n,
        (m1 - 1) * (m1 - 1) < n,
        (m2 - 1) * (m2 - 1) < n,
    ensures
        m1 == m2,
{
    if m1 < m2 {
        assert(false) by (nonlinear_arith)
            requires
                m1 >= 0,
                m1 * m1 >= n,
                (m2 - 1) * (m2 - 1) < n,
                m1 <= m2 - 1,
        ;
    }
    if m2 < m1 {
        assert(false) by (nonlinear_arith)
            requires
                m2 >= 0,
                m2 * m2 >= n,
                (m1 - 1) * (m1 - 1) < n,
                m2 <= m1 - 1,
        ;
    }
}

/// Exactly the primes for which `sqrt_mod` produces roots: `2`; or an odd
/// prime modulo which `n` is a residue, provided the root extraction can run
/// (directly for `p == 3 mod 4`, else through a non-residue witness, which
/// every remaining prime in fact has).
pub open spec fn has_roots(n: int, p: int) -> bool {
    p == 2 || (is_qr(n, p) && (p % 4 == 3 || has_nonresidue(p)))
}

/// Dividing the factor-base primes out of a value yields a divisor of it, of
/// the same sign and no larger in magnitude.
proof fn lemma_applied_props(y: int, fb: Seq<i64>, t: int)
    requires
        forall|u: int| 0 <= u < fb.len() ==> #[trigger] fb[u] >= 2,
        t <= fb.len(),
    ensures
        crate::integers::divides(applied(y, fb, t), y),
        y > 0 ==> 1 <= applied(y, fb, t) <= y,
        y < 0 ==> y <= applied(y, fb, t) <= -1,
        y == 0 ==> applied(y, fb, t) == 0,
    decreases t,
{
    if t <= 0 {
        assert(y == y * 1);
    } else {
        lemma_applied_props(y, fb, t - 1);
        let v = applied(y, fb, t - 1);
        lemma_divide_out_props(v, fb[t - 1] as int);
        crate::integers::lemma_divides_trans(divide_out(v, fb[t - 1] as int), v, y);
    }
}

/// Later residuals divide earlier ones.
proof fn lemma_applied_chain(y: int, fb: Seq<i64>, t0: int, t: int)
    requires
        forall|u: int| 0 <= u < fb.len() ==> #[trigger] fb[u] >= 2,
        0 <= t0 <= t <= fb.len(),
    ensures
        crate::integers::divides(applied(y, fb, t), applied(y, fb, t0)),
    decreases t - t0,
{
    if t0 == t {
        assert(applied(y, fb, t) == applied(y, fb, t) * 1);
    } else {
        lemma_applied_chain(y, fb, t0, t - 1);
        lemma_divide_out_props(applied(y, fb, t - 1), fb[t - 1] as int);
        crate::integers::lemma_divides_trans(
            applied(y, fb, t),
            applied(y, fb, t - 1),
            applied(y, fb, t0),
        );
    }
}

/// A divisor of a value that `p` does not divide is itself not divisible by
/// `p`.
proof fn lemma_indivisible_divisor(p: int, big: int, small: int)
    requires
        p >= 2,
        crate::integers::divides(small, big),
        big % p != 0,
    ensures
        small % p != 0,
{
    if small % p == 0 {
        crate::integers::lemma_divides_mod(p, small);
        let k1 = choose|k: int| small == #[trigger] (p * k);
        let k2 = choose|k: int| big == #[trigger] (small * k);
        assert(big == p * (k1 * k2)) by (nonlinear_arith)
            requires
                small == p * k1,
                big == small * k2,
        ;
        vstd::arithmetic::div_mod::lemma_mod_multiples_basic(k1 * k2, p);
        assert(p * (k1 * k2) == (k1 * k2) * p) by (nonlinear_arith);
        assert(false);
    }
}

/// One sieving pass for a single root: every position congruent to `s0`
/// modulo `p` has all factors `p` divided out; other positions are untouched.
fn sieve_pass(sieve: &mut Vec<i64>, p: i64, s0: usize)
    requires
        p >= 2,
        s0 < p,
        old(sieve)@.len() + p <= usize::MAX,
        forall|k: int| 0 <= k < old(sieve)@.len() ==> 0 <= #[trigger] old(sieve)@[k],
    ensures
        final(sieve)@.len() == old(sieve)@.len(),
        forall|k: int|
            0 <= k < old(sieve)@.len() ==> #[trigger] final(sieve)@[k] as int == (if k % (
            p as int) == s0 as int {
                divide_out(old(sieve)@[k] as int, p as int)
            } else {
                old(sieve)@[k] as int
            }),
        forall|k: int|
            0 <= k < old(sieve)@.len() ==> 0 <= #[trigger] final(sieve)@[k] <= old(sieve)@[k],
{
    let len = sieve.len();
    let pu = p as usize;
    let mut idx = s0;
    proof {
        vstd::arithmetic::div_mod::lemma_small_mod(s0 as nat, pu as nat);
        assert forall|k: int| 0 <= k < s0 implies #[trigger] (k % (p as int)) == k by {
            vstd::arithmetic::div_mod::lemma_small_mod(k as nat, p as nat);
        }
    }
    while idx < len
        invariant
            p >= 2,
            pu == p,
            s0 < p,
            len == sieve@.len(),
            len == old(sieve)@.len(),
            len + p <= usize::MAX,
            idx % pu == s0,
            forall|k: int| 0 <= k < len ==> 0 <= #[trigger] old(sieve)@[k],
            forall|k: int|
                0 <= k < len ==> #[trigger] sieve@[k] as int == (if k % (p as int) == s0 as int
                    && k < idx {
                    divide_out(old(sieve)@[k] as int, p as int)
                } else {
                    old(sieve)@[k] as int
                }),
            forall|k: int| 0 <= k < len ==> 0 <= #[trigger] sieve@[k] <= old(sieve)@[k],
            idx <= len + pu,
        decreases len + pu - idx,
    {
        let ghost v0 = sieve@[idx as int] as int;
        let mut vu = sieve[idx] as u64;
        proof {
            lemma_divide_out_props(v0, p as int);
        }
        while vu % (p as u64) == 0 && vu != 0
            invariant
                p >= 2,
                divide_out(v0, p as int) == divide_out(vu as int, p as int),
                vu <= v0,
                v0 <= i64::MAX,
            decreases vu,
        {
            proof {
                vstd::arithmetic::div_mod::lemma_div_is_strictly_smaller(vu as int, p as int);
                vstd::arithmetic::div_mod::lemma_div_pos_is_pos(vu as int, p as int);
            }
            vu = vu / (p as u64);
        }
        proof {
            assert(divide_out(vu as int, p as int) == vu as int);
            lemma_divide_out_props(v0, p as int);
        }
        let ghost pre = sieve@;
        sieve.set(idx, vu as i64);
        proof {
            assert(idx as int % (p as int) == s0 as int);
            assert forall|k: int|
                0 <= k < len implies #[trigger] sieve@[k] as int == (if k % (p as int)
                    == s0 as int && k < idx + pu {
                    divide_out(old(sieve)@[k] as int, p as int)
                } else {
                    old(sieve)@[k] as int
                }) by {
                if k != idx {
                    assert(sieve@[k] == pre[k]);
                    if idx < k < idx + pu && k % (p as int) == s0 as int {
                        // impossible: two distinct congruent indices within one stride
                        vstd::arithmetic::div_mod::lemma_mod_adds(idx as int, (k - idx), p as int);
                        vstd::arithmetic::div_mod::lemma_small_mod((k - idx) as nat, p as nat);
                        let qq = ((idx as int % (p as int)) + ((k - idx) % (p as int))) / (
                        p as int);
                        assert(k - idx == (p as int) * qq);
                        assert(false) by (nonlinear_arith)
                            requires
                                k - idx == (p as int) * qq,
                                0 < k - idx,
                                k - idx < p,
                                p >= 2,
                        ;
                    }
                }
            }
            // the stride index keeps its residue
            vstd::arithmetic::div_mod::lemma_mod_add_multiples_vanish(idx as int, p as int);
            assert((idx + pu) as int % (pu as int) == s0 as int);
        }
        idx = idx + pu;
    }
    proof {
        assert forall|k: int|
            0 <= k < len implies #[trigger] sieve@[k] as int == (if k % (p as int) == s0 as int {
                divide_out(old(sieve)@[k] as int, p as int)
            } else {
                old(sieve)@[k] as int
            }) by {
            if k % (p as int) == s0 as int {
                assert(k < idx);
            }
        }
    }
}

/// The two entries of `rt` are reduced square roots of `n` modulo `p`, and
/// they sum to zero modulo `p`.
pub open spec fn root_pair_ok(p: i64, rt: [i64; 2], n: int) -> bool {
    &&& 0 <= rt[0] < p
    &&& 0 <= rt[1] < p
    &&& (rt[0] as int * rt[0] as int) % (p as int) == n % (p as int)
    &&& (rt[0] as int + rt[1] as int) % (p as int) == 0
}

/// The first `b` primes `p` at or past `p0` (up to the scan ceiling) for
/// which `n` is a quadratic residue, in increasing order.
pub open spec fn qr_primes_take(n: int, b: int, p0: int) -> Seq<i64>
    decreases PRIME_SCAN_LIMIT + 1 - p0,
{
    if p0 > PRIME_SCAN_LIMIT || p0 < 2 || b <= 0 {
        Seq::empty()
    } else if is_prime_spec(p0) && is_qr(n, p0) {
        seq![p0 as i64] + qr_primes_take(n, b - 1, p0 + 1)
    } else {
        qr_primes_take(n, b, p0 + 1)
    }
}

/// The first `b` primes `p` at or past `p0` (up to the scan ceiling) over
/// which `n` has square roots, in increasing order.
pub open spec fn root_primes_take(n: int, b: int, p0: int) -> Seq<i64>
    decreases PRIME_SCAN_LIMIT + 1 - p0,
{
    if p0 > PRIME_SCAN_LIMIT || p0 < 2 || b <= 0 {
        Seq::empty()
    } else if is_prime_spec(p0) && has_roots(n, p0) {
        seq![p0 as i64] + root_primes_take(n, b - 1, p0 + 1)
    } else {
        root_primes_take(n, b, p0 + 1)
    }
}

/// Sieve the interval `[m, m + i)` with `m = ceil(sqrt(n))`: build the values
/// `x^2 - n`, divide out every factor-base prime along its two root strides,
/// and keep exactly the positions where a unit remains.  Returns the smooth
/// `x` values, the corresponding `y = x^2 - n`, and the factor base used.
pub fn smooth(n: i64, b: usize, i: usize) -> (res: (Vec<i64>, Vec<i64>, Vec<i64>))
    requires
        2 <= n <= 0x8000_0000,
        i + 0x8000_0000 <= usize::MAX,
        (ceil_sqrt(n as int) + i) * (ceil_sqrt(n as int) + i) <= i64::MAX,
    ensures
        ({
            let (xs, ys, fb) = res;
            let m = ceil_sqrt(n as int);
            &&& xs@ == smooth_xs(n as int, fb@, m, i as int, 0)
            &&& ys@.len() == xs@.len()
            &&& forall|t: int|
                0 <= t < xs@.len() ==> #[trigger] ys@[t] as int == xs@[t] as int * xs@[t] as int
                    - n
            &&& fb@ == root_primes_take(n as int, b as int, 2)
            &&& fb@.len() <= b
            &&& forall|t: int|
                0 <= t < fb@.len() ==> is_prime_spec(#[trigger] fb@[t] as int) && 2 <= fb@[t]
                    <= PRIME_SCAN_LIMIT && has_roots(n as int, fb@[t] as int)
            &&& forall|t1: int, t2: int| 0 <= t1 < t2 < fb@.len() ==> fb@[t1] < fb@[t2]
            &&& forall|q: int|
                2 <= q <= PRIME_SCAN_LIMIT && is_prime_spec(q) && has_roots(n as int, q) && (
                fb@.len() < b || (fb@.len() > 0 && q < fb@[fb@.len() - 1])) ==> fb@.contains(
                    q as i64,
                )
        }),
{
    let ghost ni = n as int;
    let m = isqrt_ceil(n);
    let ghost mi = m as int;
    proof {
        assert(mi + i <= i64::MAX) by (nonlinear_arith)
            requires
                (mi + i) * (mi + i) <= i64::MAX,
                mi >= 1,
                i >= 0,
        ;
    }
    // the sieve holds x^2 - n for x in [m, m + i)
    let mut sieve: Vec<i64> = Vec::new();
    for k in 0..i
        invariant
            mi == m,
            ni == n,
            1 <= m,
            2 <= n,
            m as int * m as int >= n,
            mi + i <= i64::MAX,
            (mi + i) * (mi + i) <= i64::MAX,
            sieve@.len() == k,
            forall|k2: int|
                0 <= k2 < k ==> #[trigger] sieve@[k2] as int == (mi + k2) * (mi + k2) - ni
                    && sieve@[k2] >= 0,
    {
        let x = m + (k as i64);
        proof {
            assert(x as int * x as int <= (mi + i) * (mi + i) && x as int * x as int >= n)
                by (nonlinear_arith)
                requires
                    mi <= x as int,
                    (x as int) < mi + i,
                    (mi + i) * (mi + i) <= i64::MAX,
                    mi * mi >= n,
                    mi >= 1,
                    n >= 2,
            ;
        }
        let y = x * x - n;
        sieve.push(y);
    }
    // the factor base: the first b primes over which n has square roots
    let mut fb: Vec<i64> = Vec::new();
    let mut roots: Vec<[i64; 2]> = Vec::new();
    let mut p: i64 = 2;
    while p <= PRIME_SCAN_LIMIT && fb.len() < b
        invariant
            ni == n,
            2 <= p <= PRIME_SCAN_LIMIT + 1,
            2 <= n <= 0x8000_0000,
            fb@.len() == roots@.len(),
            fb@.len() <= b,
            root_primes_take(ni, b as int, 2) == fb@ + root_primes_take(
                ni,
                b - fb@.len(),
                p as int,
            ),
            forall|t: int|
                0 <= t < fb@.len() ==> is_prime_spec(#[trigger] fb@[t] as int) && 2 <= fb@[t] < p
                    && fb@[t] <= PRIME_SCAN_LIMIT && has_roots(ni, fb@[t] as int),
            forall|t1: int, t2: int| 0 <= t1 < t2 < fb@.len() ==> fb@[t1] < fb@[t2],
            forall|q: int|
                2 <= q < p && is_prime_spec(q) && has_roots(ni, q) ==> fb@.contains(q as i64),
            forall|t: int|
                0 <= t < fb@.len() ==> #[trigger] root_pair_ok(fb@[t], roots@[t], ni),
        decreases PRIME_SCAN_LIMIT + 1 - p,
    {
        let ghost before = fb@;
        if is_prime(p) {
            let rt = sqrt_mod(n, p);
            match rt {
                Option::Some(roots_p) => {
                    let ghost old_fb = fb@;
                    fb.push(p);
                    roots.push(roots_p);
                    proof {
                        assert(fb@[fb@.len() - 1] == p);
                        assert(roots@[roots@.len() - 1] == roots_p);
                        assert(root_pair_ok(p, roots_p, ni));
                        assert(has_roots(ni, p as int));
                        assert forall|q: int|
                            2 <= q < p + 1 && is_prime_spec(q) && has_roots(ni, q)
                                implies fb@.contains(q as i64) by {
                            if q < p {
                                let t = choose|t: int|
                                    0 <= t < old_fb.len() && old_fb[t] == q as i64;
                                assert(fb@[t] == q as i64);
                            }
                        }
                        assert(root_primes_take(ni, b - before.len(), p as int) == seq![p]
                            + root_primes_take(ni, b - fb@.len(), p as int + 1));
                        assert(fb@ == before + seq![p]);
                        assert(before + (seq![p] + root_primes_take(
                            ni,
                            b - fb@.len(),
                            p as int + 1,
                        )) =~= fb@ + root_primes_take(ni, b - fb@.len(), p as int + 1));
                    }
                },
                Option::None => {
                    proof {
                        assert(!has_roots(ni, p as int));
                        assert(root_primes_take(ni, b - fb@.len(), p as int) == root_primes_take(
                            ni,
                            b - fb@.len(),
                            p as int + 1,
                        ));
                    }
                },
            }
        } else {
            proof {
                assert(root_primes_take(ni, b - fb@.len(), p as int) == root_primes_take(
                    ni,
                    b - fb@.len(),
                    p as int + 1,
                ));
            }
        }
        p = p + 1;
    }
    proof {
        assert(root_primes_take(ni, b - fb@.len(), p as int) =~= Seq::<i64>::empty());
        assert(fb@ + Seq::<i64>::empty() =~= fb@);
        assert forall|q: int|
            2 <= q <= PRIME_SCAN_LIMIT && is_prime_spec(q) && has_roots(ni, q) && (fb@.len() < b
                || (fb@.len() > 0 && q < fb@[fb@.len() - 1])) implies fb@.contains(q as i64) by {
            if fb@.len() < b {
                assert(p > PRIME_SCAN_LIMIT);
            } else {
                assert(fb@[fb@.len() - 1] < p);
            }
        }
    }
    // divide every factor-base prime out along its two root strides
    let nfb = fb.len();
    let ghost fbv = fb@;
    let ghost rootsv = roots@;
    for t in 0..nfb
        invariant
            ni == n,
            mi == m,
            1 <= m <= n,
            mi * mi >= ni,
            2 <= n <= 0x8000_0000,
            i + 0x8000_0000 <= usize::MAX,
            fb@ == fbv,
            roots@ == rootsv,
            nfb == fbv.len(),
            rootsv.len() == nfb,
            forall|t2: int|
                0 <= t2 < fbv.len() ==> is_prime_spec(#[trigger] fbv[t2] as int) && 2 <= fbv[t2]
                    <= PRIME_SCAN_LIMIT,
            forall|t2: int|
                0 <= t2 < fbv.len() ==> #[trigger] root_pair_ok(fbv[t2], rootsv[t2], ni),
            sieve@.len() == i,
            forall|k: int|
                0 <= k < i ==> #[trigger] sieve@[k] as int == applied(
                    (mi + k) * (mi + k) - ni,
                    fbv,
                    t as int,
                ) && 0 <= sieve@[k] <= i64::MAX,
    {
        proof {
            assert(root_pair_ok(fbv[t as int], rootsv[t as int], ni));
        }
        let pt = fb[t];
        let r0 = roots[t][0];
        let r1 = roots[t][1];
        let s0 = crate::integers::euclid_mod_i64(r0 - m, pt) as usize;
        let s1 = crate::integers::euclid_mod_i64(r1 - m, pt) as usize;
        let ghost before = sieve@;
        proof {
            assert forall|k: int| 0 <= k < i implies 0 <= #[trigger] before[k] by {}
        }
        sieve_pass(&mut sieve, pt, s0);
        let ghost mid = sieve@;
        sieve_pass(&mut sieve, pt, s1);
        proof {
            let pi = pt as int;
            assert forall|k: int|
                0 <= k < i implies #[trigger] sieve@[k] as int == applied(
                    (mi + k) * (mi + k) - ni,
                    fbv,
                    t + 1,
                ) && 0 <= sieve@[k] <= i64::MAX by {
                let yk = (mi + k) * (mi + k) - ni;
                assert(yk >= 0) by (nonlinear_arith)
                    requires
                        mi * mi >= ni,
                        mi >= 1,
                        k >= 0,
                        yk == (mi + k) * (mi + k) - ni,
                ;
                let vk = before[k] as int;
                assert(vk == applied(yk, fbv, t as int));
                lemma_applied_props(yk, fbv, t as int);
                lemma_divide_out_props(vk, pi);
                assert(applied(yk, fbv, t + 1) == divide_out(vk, pi));
                if k % pi == s0 as int {
                    // divided on the first pass; the second changes nothing
                    assert(mid[k] as int == divide_out(vk, pi));
                    if k % pi == s1 as int {
                        assert(sieve@[k] as int == divide_out(divide_out(vk, pi), pi));
                        lemma_divide_out_props(divide_out(vk, pi), pi);
                    } else {
                        assert(sieve@[k] as int == mid[k] as int);
                    }
                } else {
                    assert(mid[k] as int == vk);
                    if k % pi == s1 as int {
                        assert(sieve@[k] as int == divide_out(vk, pi));
                    } else {
                        // a position missed by both strides holds a value
                        // that pt does not divide
                        lemma_unhit_position(ni, pi, mi, k, r0 as int, r1 as int);
                        assert(yk % pi != 0);
                        lemma_divide_out_foreign(yk, vk, pi);
                        assert(sieve@[k] as int == vk);
                    }
                }
            }
        }
    }
    // keep exactly the positions where a unit remains
    let ghost e = sieve@;
    let mut xs: Vec<i64> = Vec::new();
    let mut ys: Vec<i64> = Vec::new();
    for k in 0..i
        invariant
            ni == n,
            mi == m,
            1 <= m,
            2 <= n,
            mi + i <= i64::MAX,
            (mi + i) * (mi + i) <= i64::MAX,
            m as int * m as int >= n,
            sieve@ == e,
            sieve@.len() == i,
            nfb == fbv.len(),
            forall|k2: int|
                0 <= k2 < i ==> #[trigger] e[k2] as int == applied(
                    (mi + k2) * (mi + k2) - ni,
                    fbv,
                    fbv.len() as int,
                ) && 0 <= e[k2],
            xs@ + smooth_xs(ni, fbv, mi, i as int, k as int) == smooth_xs(ni, fbv, mi, i as int, 0),
            ys@.len() == xs@.len(),
            forall|t2: int|
                0 <= t2 < xs@.len() ==> #[trigger] ys@[t2] as int == xs@[t2] as int * xs@[t2] as int
                    - ni,
    {
        let ghost old_xs = xs@;
        let v = sieve[k];
        if v == 1 || v == -1 {
            let x = m + (k as i64);
            proof {
                assert(x as int * x as int <= (mi + i) * (mi + i) && x as int * x as int >= n)
                    by (nonlinear_arith)
                    requires
                        mi <= x as int,
                        (x as int) < mi + i,
                        (mi + i) * (mi + i) <= i64::MAX,
                        mi * mi >= n,
                        mi >= 1,
                        n >= 2,
                ;
                assert(smooth_at(ni, fbv, mi + k));
            }
            let y = x * x - n;
            xs.push(x);
            ys.push(y);
        } else {
            proof {
                assert(!smooth_at(ni, fbv, mi + k));
            }
        }
        proof {
            assert(xs@ + smooth_xs(ni, fbv, mi, i as int, k + 1) =~= smooth_xs(
                ni,
                fbv,
                mi,
                i as int,
                0,
            ));
        }
    }
    (xs, ys, fb)
}

/// A value with all factors `d` stripped and exactly `j` of them recorded is
/// what `divide_out` computes.
proof fn lemma_divide_out_unique(x: int, d: int, v: int, j: nat)
    requires
        d >= 2,
        v != 0,
        x == v * pow(d, j),
        v % d != 0,
    ensures
        divide_out(x, d) == v,
    decreases j,
{
    vstd::arithmetic::power::lemma_pow_positive(d, j);
    assert(x != 0) by (nonlinear_arith)
        requires
            x == v * pow(d, j),
            v != 0,
            pow(d, j) >= 1,
    ;
    if j == 0 {
        vstd::arithmetic::power::lemma_pow0(d);
    } else {
        vstd::arithmetic::power::lemma_pow1(d);
        vstd::arithmetic::power::lemma_pow_adds(d, 1, (j - 1) as nat);
        assert(pow(d, j) == d * pow(d, (j - 1) as nat));
        let w = v * pow(d, (j - 1) as nat);
        assert(x == d * w) by (nonlinear_arith)
            requires
                x == v * pow(d, j),
                pow(d, j) == d * pow(d, (j - 1) as nat),
                w == v * pow(d, (j - 1) as nat),
        ;
        vstd::arithmetic::div_mod::lemma_mod_multiples_basic(w, d);
        assert(w * d == d * w) by (nonlinear_arith);
        assert(x % d == 0);
        vstd::arithmetic::div_mod::lemma_div_multiples_vanish(w, d);
        assert(x / d == w);
        vstd::arithmetic::power::lemma_pow_positive(d, (j - 1) as nat);
        assert(w != 0) by (nonlinear_arith)
            requires
                w == v * pow(d, (j - 1) as nat),
                v != 0,
                pow(d, (j - 1) as nat) >= 1,
        ;
        lemma_divide_out_unique(w, d, v, (j - 1) as nat);
    }
}

/// A power of a base at least two grows at least as fast as the powers of
/// two.
proof fn lemma_pow_ge_pow2(d: int, e: nat)
    requires
        d >= 2,
    ensures
        pow(d, e) >= pow(2, e),
    decreases e,
{
    if e == 0 {
        vstd::arithmetic::power::lemma_pow0(d);
        vstd::arithmetic::power::lemma_pow0(2int);
    } else {
        lemma_pow_ge_pow2(d, (e - 1) as nat);
        vstd::arithmetic::power::lemma_pow_positive(2, (e - 1) as nat);
        vstd::arithmetic::power::lemma_pow1(d);
        vstd::arithmetic::power::lemma_pow1(2int);
        vstd::arithmetic::power::lemma_pow_adds(d, 1, (e - 1) as nat);
        vstd::arithmetic::power::lemma_pow_adds(2int, 1, (e - 1) as nat);
        assert(pow(d, e) == d * pow(d, (e - 1) as nat));
        assert(pow(2int, e) == 2 * pow(2int, (e - 1) as nat));
        assert(d * pow(d, (e - 1) as nat) >= 2 * pow(2, (e - 1) as nat)) by (nonlinear_arith)
            requires
                d >= 2,
                pow(d, (e - 1) as nat) >= pow(2, (e - 1) as nat),
                pow(2, (e - 1) as nat) >= 1,
        ;
    }
}

/// The product `p_0^(e_0) * .. * p_(t-1)^(e_(t-1))` of the first `t` recorded
/// prime powers.
pub open spec fn exp_prod(f: Seq<(i64, u32)>, t: int) -> int
    decreases t,
{
    if t <= 0 {
        1
    } else {
        exp_prod(f, t - 1) * pow(f[t - 1].0 as int, f[t - 1].1 as nat)
    }
}

/// Factor the nonzero `n` over the factor base by trial division, recording
/// one exponent per prime: `n == r * prod(p_j ^ e_j)`, where the residual `r`
/// is `n` with every factor-base prime fully divided out, so that no base
/// prime divides it.
pub fn factor_over(n: &i64, fb: &Vec<i64>) -> (r: (i64, Vec<(i64, u32)>))
    requires
        *n != 0,
        forall|t: int| 0 <= t < fb@.len() ==> #[trigger] fb@[t] >= 2,
    ensures
        r.0 as int == applied(*n as int, fb@, fb@.len() as int),
        r.1@.len() == fb@.len(),
        forall|t: int| 0 <= t < fb@.len() ==> (#[trigger] r.1@[t]).0 == fb@[t],
        *n as int == r.0 as int * exp_prod(r.1@, fb@.len() as int),
        r.0 != 0,
        (*n > 0) == (r.0 > 0),
        forall|t: int| 0 <= t < fb@.len() ==> (r.0 as int) % (#[trigger] fb@[t] as int) != 0,
        forall|t: int|
            0 <= t < fb@.len() ==> (#[trigger] r.1@[t]).1 as nat == pmul(
                applied(*n as int, fb@, t),
                fb@[t] as int,
            ),
{
    let mut cur: i64 = *n;
    let mut fact: Vec<(i64, u32)> = Vec::new();
    let len = fb.len();
    proof {
        assert(exp_prod(fact@, 0) == 1);
    }
    for t in 0..len
        invariant
            *n != 0,
            len == fb@.len(),
            forall|t2: int| 0 <= t2 < fb@.len() ==> #[trigger] fb@[t2] >= 2,
            cur != 0,
            (*n > 0) == (cur > 0),
            cur as int == applied(*n as int, fb@, t as int),
            fact@.len() == t,
            forall|t2: int| 0 <= t2 < t ==> (#[trigger] fact@[t2]).0 == fb@[t2],
            forall|t2: int|
                0 <= t2 < t ==> (#[trigger] fact@[t2]).1 as nat == pmul(
                    applied(*n as int, fb@, t2),
                    fb@[t2] as int,
                ),
            *n as int == cur as int * exp_prod(fact@, t as int),
    {
        let p = fb[t];
        let (nxt, e) = div_while(cur, p);
        proof {
            // the exponent fits in 32 bits
            lemma_pow_ge_pow2(p as int, e as nat);
            vstd::arithmetic::power::lemma_pow_positive(p as int, e as nat);
            if e >= 64 {
                vstd::arithmetic::power2::lemma2_to64();
                lemma_pow2_pow(64);
                vstd::arithmetic::power::lemma_pow_increases(2, 64, e as nat);
                assert(pow(2, e as nat) >= pow2(64));
                assert(false) by (nonlinear_arith)
                    requires
                        cur as int == nxt as int * pow(p as int, e as nat),
                        nxt != 0,
                        pow(p as int, e as nat) >= pow(2, e as nat),
                        pow(2, e as nat) >= 0x1_0000_0000_0000_0000,
                        -0x8000_0000_0000_0000 <= cur <= i64::MAX,
                ;
            }
            lemma_divide_out_unique(cur as int, p as int, nxt as int, e as nat);
            lemma_pmul_unique(cur as int, p as int, nxt as int, e as nat);
        }
        let ghost old_fact = fact@;
        fact.push((p, e as u32));
        cur = nxt;
        proof {
            assert(fact@[t as int] == (p, e as u32));
            assert(exp_prod(fact@, t + 1) == exp_prod(fact@, t as int) * pow(
                p as int,
                e as nat,
            ));
            assert forall|t2: int| 0 <= t2 < t + 1 implies (#[trigger] fact@[t2]).0
                == fb@[t2] by {}
            assert(exp_prod(fact@, t as int) == exp_prod(old_fact, t as int)) by {
                lemma_exp_prod_prefix(old_fact, fact@, t as int);
            }
            assert(*n as int == cur as int * exp_prod(fact@, t + 1)) by (nonlinear_arith)
                requires
                    *n as int == (cur as int * pow(p as int, e as nat)) * exp_prod(
                        fact@,
                        t as int,
                    ),
                    exp_prod(fact@, t + 1) == exp_prod(fact@, t as int) * pow(p as int, e as nat),
            ;
        }
    }
    proof {
        // the residual is free of every base prime: each prime was fully
        // divided out at its step, and the later residuals divide that one
        assert forall|t: int|
            0 <= t < fb@.len() implies (cur as int) % (#[trigger] fb@[t] as int) != 0 by {
            lemma_applied_props(*n as int, fb@, t + 1);
            lemma_divide_out_props(applied(*n as int, fb@, t), fb@[t] as int);
            lemma_applied_chain(*n as int, fb@, t + 1, fb@.len() as int);
            lemma_indivisible_divisor(
                fb@[t] as int,
                applied(*n as int, fb@, t + 1),
                applied(*n as int, fb@, fb@.len() as int),
            );
        }
    }
    (cur, fact)
}

/// `exp_prod` over the first `t` entries only reads those entries.
proof fn lemma_exp_prod_prefix(a: Seq<(i64, u32)>, b: Seq<(i64, u32)>, t: int)
    requires
        forall|u: int| 0 <= u < t ==> a[u] == b[u],
    ensures
        exp_prod(a, t) == exp_prod(b, t),
    decreases t,
{
    if t > 0 {
        lemma_exp_prod_prefix(a, b, t - 1);
    }
}

/// Why a factorization attempt failed.
#[derive(PartialEq, Eq, Structural, Copy, Clone, Debug)]
pub enum QsError {
    /// The sieve produced no more smooth relations than factor-base primes,
    /// so the parity system is underdetermined.
    InsufficientRelations,
    /// Every null-space combination led to a trivial divisor.
    NoNontrivialFactor,
}

/// The residues modulo two of the factor-base arithmetic are closed and
/// total: in particular `gcd(1, 2) == 1`.
proof fn lemma_gcd_one_two()
    ensures
        crate::integers::gcd_nat(1nat, 2nat) == 1,
        crate::integers::gcd_nat(1nat, 1nat) == 1,
{
    vstd::arithmetic::div_mod::lemma_small_mod(1nat, 2nat);
    vstd::arithmetic::div_mod::lemma_mod_self_0(1int);
    assert(crate::integers::gcd_nat(1nat, 2nat) == crate::integers::gcd_nat(2nat, 1nat));
    assert(crate::integers::gcd_nat(2nat, 1nat) == crate::integers::gcd_nat(1nat, 0nat));
    assert(crate::integers::gcd_nat(1nat, 1nat) == crate::integers::gcd_nat(1nat, 0nat));
}

/// Every scalar operation of the echelon reduction is in range over the
/// residues modulo two: a nonzero entry has representative one, which is
/// coprime with the modulus.
proof fn lemma_elim_below_ok_mod2(
    m: Seq<Seq<CongruenceClass<2>>>,
    cols: int,
    r: int,
    j: int,
    i: int,
)
    requires
        crate::matrix::grid_wf(m, cols),
        0 <= r < m.len(),
        0 <= j < cols,
        m[r][j] != <CongruenceClass<2> as crate::matrix::Scalar>::zero_spec(),
        r < i,
    ensures
        crate::matrix::elim_below_ok(m, r, j, i),
        crate::matrix::grid_wf(crate::matrix::elim_below(m, r, j, i), cols),
        crate::matrix::elim_below(m, r, j, i).len() == m.len(),
        i <= m.len() ==> crate::matrix::elim_below(m, r, j, i)[r] == m[r],
    decreases m.len() - i,
{
    lemma_gcd_one_two();
    if 0 <= i < m.len() {
        let a = m[r][j];
        let b = m[i][j];
        if b != <CongruenceClass<2> as crate::matrix::Scalar>::zero_spec() {
            assert(a.0 == 1 && b.0 == 1);
            let l = crate::matrix::Scalar::lcm_spec(b, a);
            let c = crate::matrix::Scalar::div_spec(l, a);
            let d = crate::matrix::Scalar::div_spec(l, b);
            assert(crate::matrix::Scalar::lcm_ok(b, a));
            assert(crate::matrix::Scalar::div_ok(l, a));
            assert(crate::matrix::Scalar::div_ok(l, b));
            let row = crate::matrix::elim_row(m[i], m[r], c, d);
            assert forall|k: int| 0 <= k < row.len() implies (#[trigger] row[k]).reduced() by {
                vstd::arithmetic::div_mod::lemma_mod_bound(
                    crate::matrix::Scalar::mul_spec(d, m[i][k]).rep() - crate::matrix::Scalar::mul_spec(
                        c,
                        m[r][k],
                    ).rep(),
                    2,
                );
            }
            let m2 = m.update(i, row);
            assert(crate::matrix::grid_wf(m2, cols));
            assert(m2[r] == m[r]);
            assert(m2[r][j] == m[r][j]);
            lemma_elim_below_ok_mod2(m2, cols, r, j, i + 1);
        } else {
            lemma_elim_below_ok_mod2(m, cols, r, j, i + 1);
        }
    }
}

/// Over the residues modulo two, the whole echelon reduction stays in range.
proof fn lemma_ech_ok_mod2(m: Seq<Seq<CongruenceClass<2>>>, cols: int, j: int, r: int)
    requires
        crate::matrix::grid_wf(m, cols),
        0 <= r,
        0 <= j,
    ensures
        crate::matrix::ech_ok(m, cols, j, r),
    decreases cols - j,
{
    if 0 <= j < cols {
        match crate::matrix::col_find::<CongruenceClass<2>>(m, j, r) {
            Option::None => {
                lemma_ech_ok_mod2(m, cols, j + 1, r);
            },
            Option::Some(i) => {
                crate::matrix::lemma_col_find::<CongruenceClass<2>>(m, j, r);
                let m1 = crate::matrix::swap_rows(m, r, i);
                assert(crate::matrix::grid_wf(m1, cols)) by {
                    assert forall|t: int, k: int|
                        0 <= t < m1.len() && 0 <= k < cols implies (
                    #[trigger] m1[t][k]).reduced() by {
                        assert(m1[t] == m[r] || m1[t] == m[i] || m1[t] == m[t]);
                    }
                    assert forall|t: int| 0 <= t < m1.len() implies (#[trigger] m1[t]).len()
                        == cols by {
                        assert(m1[t] == m[r] || m1[t] == m[i] || m1[t] == m[t]);
                    }
                }
                assert(m1[r][j] == m[i][j]);
                lemma_elim_below_ok_mod2(m1, cols, r, j, r + 1);
                lemma_ech_ok_mod2(
                    crate::matrix::elim_below(m1, r, j, r + 1),
                    cols,
                    j + 1,
                    r + 1,
                );
            },
        }
    }
}

/// The exponent-parity row of the relation at `x`: for each factor-base
/// prime, the parity of its multiplicity in `x * x - n`, taken after the
/// earlier primes have been fully divided out (the order trial division
/// uses).
pub open spec fn parity_row(n: int, fbs: Seq<i64>, x: int) -> Seq<CongruenceClass<2>> {
    Seq::new(
        fbs.len(),
        |k: int|
            CongruenceClass::<2>(
                (pmul(applied(x * x - n, fbs, k), fbs[k] as int) % 2) as u32,
            ),
    )
}

/// The exponent-parity matrix of the smooth relations.
pub open spec fn parity_rows(n: int, fbs: Seq<i64>, xss: Seq<i64>) -> Seq<
    Seq<CongruenceClass<2>>,
> {
    Seq::new(xss.len(), |t: int| parity_row(n, fbs, xss[t] as int))
}

/// The null-space coefficient vectors the pipeline tries, in order.
pub open spec fn qs_vectors(n: int, b: int, i: int) -> Seq<Seq<CongruenceClass<2>>> {
    let fbs = root_primes_take(n, b, 2);
    let xss = smooth_xs(n, fbs, ceil_sqrt(n), i, 0);
    crate::matrix::lnull_from(
        crate::matrix::echelon_spec(
            crate::matrix::augment_spec(parity_rows(n, fbs, xss)),
            fbs.len() as int + xss.len() as int,
        ),
        fbs.len() as int,
        0,
    )
}

/// The combined multiplicity of prime `fbs[k]` over the first `t0` relations
/// chosen by the coefficient vector `v`.
pub open spec fn comb_exp(
    n: int,
    fbs: Seq<i64>,
    xss: Seq<i64>,
    v: Seq<CongruenceClass<2>>,
    k: int,
    t0: int,
) -> nat
    decreases t0,
{
    if t0 <= 0 {
        0
    } else {
        comb_exp(n, fbs, xss, v, k, t0 - 1) + (if v[t0 - 1].0 != 0 {
            pmul(applied(xss[t0 - 1] as int * xss[t0 - 1] as int - n, fbs, k), fbs[k] as int)
        } else {
            0nat
        })
    }
}

/// The product modulo `n` of the chosen `x` values over the first `t0`
/// relations, folded the way the pipeline computes it.
pub open spec fn comb_x(n: int, xss: Seq<i64>, v: Seq<CongruenceClass<2>>, t0: int) -> int
    decreases t0,
{
    if t0 <= 0 {
        1int % n
    } else if v[t0 - 1].0 != 0 {
        (comb_x(n, xss, v, t0 - 1) * (xss[t0 - 1] as int % n)) % n
    } else {
        comb_x(n, xss, v, t0 - 1)
    }
}

/// The product modulo `n` of each factor-base prime raised to half its
/// combined exponent, over the first `k0` primes.
pub open spec fn comb_y(
    n: int,
    fbs: Seq<i64>,
    xss: Seq<i64>,
    v: Seq<CongruenceClass<2>>,
    k0: int,
) -> int
    decreases k0,
{
    if k0 <= 0 {
        1int % n
    } else {
        (comb_y(n, fbs, xss, v, k0 - 1) * (pow(
            fbs[k0 - 1] as int,
            comb_exp(n, fbs, xss, v, k0 - 1, xss.len() as int) / 2,
        ) % n)) % n
    }
}

/// Whether trying the `vi`-th null-space vector splits `n`: every combined
/// exponent is even, and the gcd of the difference of the two congruent
/// square roots with `n` is a proper divisor.
pub open spec fn qs_attempt_succeeds(n: int, b: int, i: int, vi: int) -> bool {
    let fbs = root_primes_take(n, b, 2);
    let xss = smooth_xs(n, fbs, ceil_sqrt(n), i, 0);
    let v = qs_vectors(n, b, i)[vi];
    let xp = comb_x(n, xss, v, xss.len() as int);
    let yp = comb_y(n, fbs, xss, v, fbs.len() as int);
    &&& forall|k: int|
        0 <= k < fbs.len() ==> #[trigger] comb_exp(n, fbs, xss, v, k, xss.len() as int) % 2 == 0
    &&& 1 < crate::integers::gcd_nat(vstd::math::abs(xp - yp), n as nat) < n
}

/// The divisor candidate the `vi`-th attempt produces: the gcd of the
/// difference of the congruent square roots with `n`.
pub open spec fn qs_attempt_gcd(n: int, b: int, i: int, vi: int) -> nat {
    let fbs = root_primes_take(n, b, 2);
    let xss = smooth_xs(n, fbs, ceil_sqrt(n), i, 0);
    let v = qs_vectors(n, b, i)[vi];
    let xp = comb_x(n, xss, v, xss.len() as int);
    let yp = comb_y(n, fbs, xss, v, fbs.len() as int);
    crate::integers::gcd_nat(vstd::math::abs(xp - yp), n as nat)
}

/// The quadratic sieve: find a nontrivial factorization `n == d1 * d2` by
/// sieving for smooth relations, combining them through the left null space
/// of their exponent-parity matrix, and taking a gcd of the resulting
/// congruence of squares.
pub fn qs(n: i64, b: usize, i: usize) -> (r: Result<(i64, i64), QsError>)
    requires
        2 <= n <= 0x8000_0000,
        i + 0x8000_0000 <= usize::MAX,
        b <= 0x1000_0000,
        i <= 0x1000_0000,
        (ceil_sqrt(n as int) + i) * (ceil_sqrt(n as int) + i) <= i64::MAX,
    ensures
        ({
            let fbs = root_primes_take(n as int, b as int, 2);
            let xss = smooth_xs(n as int, fbs, ceil_sqrt(n as int), i as int, 0);
            let nv = qs_vectors(n as int, b as int, i as int).len();
            match r {
                Ok((d1, d2)) => {
                    &&& 1 < d1 < n
                    &&& 1 < d2 < n
                    &&& d1 as int * d2 as int == n as int
                    &&& xss.len() > fbs.len()
                    &&& exists|vi: int|
                        {
                            &&& 0 <= vi < nv
                            &&& #[trigger] qs_attempt_succeeds(n as int, b as int, i as int, vi)
                            &&& forall|vi2: int|
                                0 <= vi2 < vi ==> !#[trigger] qs_attempt_succeeds(
                                    n as int,
                                    b as int,
                                    i as int,
                                    vi2,
                                )
                            &&& d1 as nat == qs_attempt_gcd(n as int, b as int, i as int, vi)
                            &&& d2 as int == n as int / (d1 as int)
                        }
                },
                Err(QsError::InsufficientRelations) => xss.len() <= fbs.len(),
                Err(QsError::NoNontrivialFactor) => xss.len() > fbs.len() && (forall|vi: int|
                    0 <= vi < nv ==> !#[trigger] qs_attempt_succeeds(
                        n as int,
                        b as int,
                        i as int,
                        vi,
                    )),
            }
        }),
        is_prime_spec(n as int) ==> r is Err,
{
    let ghost bi = b as int;
    let ghost ii = i as int;
    let (xs, ys, fb) = smooth(n, b, i);
    if xs.len() <= fb.len() {
        return Err(QsError::InsufficientRelations);
    }
    let m = isqrt_ceil(n);
    let nr = xs.len();
    let nc = fb.len();
    let ghost fbv = fb@;
    let ghost xsv = xs@;
    let ghost ni = n as int;
    proof {
        assert(m as int + i <= i64::MAX) by (nonlinear_arith)
            requires
                (m as int + i) * (m as int + i) <= i64::MAX,
                m >= 1,
                i >= 0,
        ;
        lemma_smooth_xs_members(ni, fbv, m as int, i as int, 0);
        assert(nr <= i);
        assert forall|t2: int| 0 <= t2 < nr implies #[trigger] ys@[t2] >= 1 by {
            assert(interval_member(ni, m as int, i as int, xs@[t2]));
        }
    }
    // factor every smooth value over the base, recording exponent parities
    let mut rows: Vec<Vec<CongruenceClass<2>>> = Vec::new();
    let mut facts: Vec<Vec<(i64, u32)>> = Vec::new();
    for t in 0..nr
        invariant
            ni == n,
            2 <= n,
            nr == xs@.len(),
            nc == fb@.len(),
            fb@ == fbv,
            xs@ == xsv,
            nr > nc,
            ys@.len() == nr,
            forall|t2: int| 0 <= t2 < nc ==> #[trigger] fbv[t2] >= 2,
            forall|t2: int|
                0 <= t2 < nr ==> #[trigger] ys@[t2] as int == xs@[t2] as int * xs@[t2] as int - ni
                    && ys@[t2] >= 1,
            rows@.len() == t,
            facts@.len() == t,
            forall|t2: int| 0 <= t2 < t ==> (#[trigger] rows@[t2])@ == parity_row(
                ni,
                fbv,
                xsv[t2] as int,
            ),
            forall|t2: int| 0 <= t2 < t ==> (#[trigger] facts@[t2])@.len() == nc,
            forall|t2: int, k: int|
                0 <= t2 < t && 0 <= k < nc ==> (#[trigger] facts@[t2]@[k]).1 as nat == pmul(
                    applied(xsv[t2] as int * xsv[t2] as int - ni, fbv, k),
                    fbv[k] as int,
                ),
        {
        let y = ys[t];
        let (res, fact) = factor_over(&y, &fb);
        let mut row: Vec<CongruenceClass<2>> = Vec::new();
        for k in 0..nc
            invariant
                ni == n,
                nc == fb@.len(),
                fb@ == fbv,
                xs@ == xsv,
                t < nr,
                nr == xs@.len(),
                y as int == xsv[t as int] as int * xsv[t as int] as int - ni,
                nc == fact@.len(),
                forall|k2: int|
                    0 <= k2 < nc ==> (#[trigger] fact@[k2]).1 as nat == pmul(
                        applied(y as int, fbv, k2),
                        fbv[k2] as int,
                    ),
                row@.len() == k,
                forall|k2: int| 0 <= k2 < k ==> #[trigger] row@[k2] == parity_row(
                    ni,
                    fbv,
                    xsv[t as int] as int,
                )[k2],
        {
            let e = fact[k].1;
            let c = CongruenceClass::<2>::new(e % 2);
            row.push(c);
            proof {
                let pe = parity_row(ni, fbv, xsv[t as int] as int)[k as int];
                assert(c.rep() == (e % 2) as int % 2);
                assert(c.rep() == pe.rep());
                assert(c.0 == pe.0);
                assert(c == pe);
            }
        }
        proof {
            assert(row@ =~= parity_row(ni, fbv, xsv[t as int] as int));
        }
        rows.push(row);
        facts.push(fact);
    }
    let mat = crate::matrix::Matrix::<CongruenceClass<2>>::from_array(rows);
    proof {
        assert(mat@ =~~= parity_rows(ni, fbv, xsv));
        assert(mat.cols == nc);
        lemma_ech_ok_mod2(
            crate::matrix::augment_spec(mat@),
            mat.cols as int + mat@.len() as int,
            0,
            0,
        );
        assert forall|t: int, k: int|
            0 <= t < crate::matrix::augment_spec(mat@).len() && 0 <= k < mat.cols + mat@.len()
                implies (#[trigger] crate::matrix::augment_spec(mat@)[t][k]).reduced() by {
            if k < mat.cols {
                assert(crate::matrix::augment_spec(mat@)[t][k] == mat@[t][k]);
            } else {
                assert(crate::matrix::augment_spec(mat@)[t][k] == crate::matrix::unit_row::<
                    CongruenceClass<2>,
                >(mat@.len() as int, t)[k - mat.cols]);
            }
        }
    }
    let vs = mat.iter_lnull_span();
    let nv = vs.len();
    proof {
        assert(fbv == root_primes_take(ni, bi, 2));
        assert(xsv == smooth_xs(ni, fbv, ceil_sqrt(ni), ii, 0));
        assert(vs@.map_values(|v: Vec<CongruenceClass<2>>| v@) == qs_vectors(ni, bi, ii));
        assert(nv == qs_vectors(ni, bi, ii).len());
    }
    for vi in 0..nv
        invariant
            ni == n,
            bi == b,
            ii == i,
            2 <= n <= 0x8000_0000,
            nr == xs@.len(),
            nc == fb@.len(),
            fb@ == fbv,
            xs@ == xsv,
            nr > nc,
            nv == vs@.len(),
            facts@.len() == nr,
            ys@.len() == nr,
            nr <= 0x1000_0000,
            fb@ == root_primes_take(ni, bi, 2),
            nr == smooth_xs(ni, fbv, ceil_sqrt(ni), ii, 0).len(),
            xsv == smooth_xs(ni, fbv, ceil_sqrt(ni), ii, 0),
            vs@.map_values(|v: Vec<CongruenceClass<2>>| v@) == qs_vectors(ni, bi, ii),
            nv == qs_vectors(ni, bi, ii).len(),
            forall|t2: int| 0 <= t2 < nv ==> (#[trigger] vs@[t2])@.len() == nr,
            forall|t2: int| 0 <= t2 < nc ==> 2 <= #[trigger] fb@[t2] <= PRIME_SCAN_LIMIT,
            forall|t2: int| 0 <= t2 < nr ==> (#[trigger] facts@[t2])@.len() == nc,
            forall|t2: int, k: int|
                0 <= t2 < nr && 0 <= k < nc ==> (#[trigger] facts@[t2]@[k]).1 as nat == pmul(
                    applied(xsv[t2] as int * xsv[t2] as int - ni, fbv, k),
                    fbv[k] as int,
                ),
            forall|vi2: int| 0 <= vi2 < vi ==> !#[trigger] qs_attempt_succeeds(ni, bi, ii, vi2),
    {
        let ghost v = vs@[vi as int]@;
        proof {
            assert(v == qs_vectors(ni, bi, ii)[vi as int]);
        }
        // the combined exponent of each factor-base prime must be even
        let mut all_even = true;
        let mut half: Vec<u64> = Vec::new();
        for k in 0..nc
            invariant
                ni == n,
                nr == xs@.len(),
                xs@ == xsv,
                fb@ == fbv,
                nc == fb@.len(),
                facts@.len() == nr,
                nr <= 0x1000_0000,
                vi < nv,
                nv == vs@.len(),
                v == vs@[vi as int]@,
                forall|t2: int| 0 <= t2 < nv ==> (#[trigger] vs@[t2])@.len() == nr,
                forall|t2: int| 0 <= t2 < nr ==> (#[trigger] facts@[t2])@.len() == nc,
                forall|t2: int, k2: int|
                    0 <= t2 < nr && 0 <= k2 < nc ==> (#[trigger] facts@[t2]@[k2]).1 as nat == pmul(
                        applied(xsv[t2] as int * xsv[t2] as int - ni, fbv, k2),
                        fbv[k2] as int,
                    ),
                half@.len() == k,
                forall|k2: int| 0 <= k2 < k ==> #[trigger] half@[k2] as nat == comb_exp(
                    ni,
                    fbv,
                    xsv,
                    v,
                    k2,
                    nr as int,
                ) / 2,
                all_even == (forall|k2: int|
                    0 <= k2 < k ==> #[trigger] comb_exp(ni, fbv, xsv, v, k2, nr as int) % 2 == 0),
        {
            let mut total: u64 = 0;
            let mut t: usize = 0;
            while t < nr
                invariant
                    ni == n,
                    nr == xs@.len(),
                    xs@ == xsv,
                    fb@ == fbv,
                    nc == fb@.len(),
                    k < nc,
                    facts@.len() == nr,
                    nr <= 0x1000_0000,
                    vi < nv,
                    nv == vs@.len(),
                    v == vs@[vi as int]@,
                    forall|t2: int| 0 <= t2 < nv ==> (#[trigger] vs@[t2])@.len() == nr,
                    forall|t2: int| 0 <= t2 < nr ==> (#[trigger] facts@[t2])@.len() == nc,
                    forall|t2: int, k2: int|
                        0 <= t2 < nr && 0 <= k2 < nc ==> (#[trigger] facts@[t2]@[k2]).1 as nat
                            == pmul(
                            applied(xsv[t2] as int * xsv[t2] as int - ni, fbv, k2),
                            fbv[k2] as int,
                        ),
                    t <= nr,
                    total <= t * 0x1_0000_0000,
                    total as nat == comb_exp(ni, fbv, xsv, v, k as int, t as int),
                decreases nr - t,
            {
                let vt = vs[vi][t];
                proof {
                    assert(vt == v[t as int]);
                }
                if !vt.is_zero() {
                    proof {
                        assert(vt.0 != 0);
                    }
                    let e = facts[t][k].1;
                    total = total + (e as u64);
                } else {
                    proof {
                        assert(vt.0 == 0);
                    }
                }
                proof {
                    assert((t + 1) * 0x1_0000_0000 == t * 0x1_0000_0000 + 0x1_0000_0000)
                        by (nonlinear_arith);
                }
                t = t + 1;
            }
            if total % 2 != 0 {
                all_even = false;
            }
            half.push(total / 2);
        }
        if all_even {
            // X = product of the chosen x values, Y = product of p^(e/2),
            // both modulo n
            let nu = n as u64;
            let mut xprod: u64 = 1 % nu;
            let mut t: usize = 0;
            while t < nr
                invariant
                    ni == n,
                    nr == xs@.len(),
                    xs@ == xsv,
                    nu == n,
                    2 <= n,
                    xprod < nu,
                    vi < nv,
                    nv == vs@.len(),
                    v == vs@[vi as int]@,
                    forall|t2: int| 0 <= t2 < nv ==> (#[trigger] vs@[t2])@.len() == nr,
                    t <= nr,
                    xprod as int == comb_x(ni, xsv, v, t as int),
                decreases nr - t,
            {
                let vt = vs[vi][t];
                proof {
                    assert(vt == v[t as int]);
                }
                if !vt.is_zero() {
                    proof {
                        assert(vt.0 != 0);
                    }
                    let xt = crate::integers::euclid_mod_i64(xs[t], n);
                    xprod = mul_mod_u64(xprod, xt, nu);
                } else {
                    proof {
                        assert(vt.0 == 0);
                    }
                }
                t = t + 1;
            }
            let ghost xp = comb_x(ni, xsv, v, nr as int);
            proof {
                assert(t == nr);
                assert(xprod as int == xp);
            }
            let mut yprod: u64 = 1 % nu;
            let mut k: usize = 0;
            while k < nc
                invariant
                    ni == n,
                    nc == fb@.len(),
                    fb@ == fbv,
                    nr == xsv.len(),
                    half@.len() == nc,
                    nu == n,
                    2 <= n,
                    yprod < nu,
                    forall|t2: int| 0 <= t2 < nc ==> 2 <= #[trigger] fb@[t2] <= PRIME_SCAN_LIMIT,
                    forall|k2: int| 0 <= k2 < nc ==> #[trigger] half@[k2] as nat == comb_exp(
                        ni,
                        fbv,
                        xsv,
                        v,
                        k2,
                        nr as int,
                    ) / 2,
                    k <= nc,
                    yprod as int == comb_y(ni, fbv, xsv, v, k as int),
                decreases nc - k,
            {
                let pk = fb[k] as u64;
                let pe = pow_mod_u64(pk, half[k], nu);
                yprod = mul_mod_u64(yprod, pe, nu);
                k = k + 1;
            }
            let ghost yp = comb_y(ni, fbv, xsv, v, nc as int);
            proof {
                assert(k == nc);
                assert(yprod as int == yp);
            }
            // a nontrivial gcd of X - Y with n splits n
            let diff: i64 = (xprod as i64) - (yprod as i64);
            let g = crate::integers::gcd_u64(crate::integers::abs_u64(diff), nu);
            proof {
                assert(diff as int == xp - yp);
                assert(g as nat == crate::integers::gcd_nat(
                    vstd::math::abs(xp - yp),
                    n as nat,
                ));
                crate::integers::lemma_gcd_bound(
                    vstd::math::abs(diff as int),
                    n as nat,
                );
            }
            if 1 < g && g < nu {
                let other = nu / g;
                proof {
                    assert(qs_attempt_succeeds(ni, bi, ii, vi as int));
                    assert(g as nat == qs_attempt_gcd(ni, bi, ii, vi as int));
                    assert(other as int == ni / (g as int));
                    crate::integers::lemma_gcd_divides(
                        vstd::math::abs(diff as int),
                        n as nat,
                    );
                    crate::integers::lemma_divides_mod(g as int, n as int);
                    vstd::arithmetic::div_mod::lemma_fundamental_div_mod(n as int, g as int);
                    assert(n as int == g as int * other as int);
                    assert(1 < other < n) by (nonlinear_arith)
                        requires
                            n as int == g as int * other as int,
                            1 < g < n,
                            n >= 2,
                    ;
                    // a proper factorization contradicts primality
                    if is_prime_spec(n as int) {
                        vstd::arithmetic::div_mod::lemma_mod_multiples_basic(
                            other as int,
                            g as int,
                        );
                        assert(g as int * other as int == other as int * g as int)
                            by (nonlinear_arith);
                        assert(n as int % (g as int) == 0);
                        assert(false);
                    }
                }
                return Ok((g as i64, other as i64));
            }
            proof {
                assert(!qs_attempt_succeeds(ni, bi, ii, vi as int));
            }
        } else {
            proof {
                // some combined exponent is odd, so this attempt cannot split
                assert(!qs_attempt_succeeds(ni, bi, ii, vi as int));
            }
        }
    }
    Err(QsError::NoNontrivialFactor)
}

/// A listed smooth value lies in the sieving interval and its sieve value is
/// positive.
pub open spec fn interval_member(n: int, m: int, i: int, x: i64) -> bool {
    &&& m <= x as int
    &&& (x as int) < m + i
    &&& x as int * x as int - n >= 1
}

/// Every member of the smooth interval listing lies in the interval and its
/// sieve value is positive; the listing is no longer than the interval.
pub proof fn lemma_smooth_xs_members(n: int, fb: Seq<i64>, m: int, i: int, k: int)
    requires
        0 <= k,
        m >= 1,
        m * m >= n,
        n >= 2,
        m + i <= i64::MAX,
        forall|u: int| 0 <= u < fb.len() ==> #[trigger] fb[u] >= 2,
    ensures
        smooth_xs(n, fb, m, i, k).len() <= i - k || smooth_xs(n, fb, m, i, k).len() == 0,
        forall|t: int|
            0 <= t < smooth_xs(n, fb, m, i, k).len() ==> #[trigger] interval_member(
                n,
                m,
                i,
                smooth_xs(n, fb, m, i, k)[t],
            ),
    decreases i - k,
{
    if 0 <= k < i {
        lemma_smooth_xs_members(n, fb, m, i, k + 1);
        let rest = smooth_xs(n, fb, m, i, k + 1);
        let s = smooth_xs(n, fb, m, i, k);
        if smooth_at(n, fb, m + k) {
            let x = m + k;
            assert(x * x - n >= 0) by (nonlinear_arith)
                requires
                    m * m >= n,
                    m >= 1,
                    k >= 0,
                    x == m + k,
            ;
            if x * x - n == 0 {
                lemma_applied_props(0, fb, fb.len() as int);
                assert(applied(0, fb, fb.len() as int) == 0);
                assert(false);
            }
            assert(interval_member(n, m, i, (m + k) as i64));
            assert forall|t: int| 0 <= t < s.len() implies #[trigger] interval_member(
                n,
                m,
                i,
                s[t],
            ) by {
                if t == 0 {
                    assert(s[0] == (m + k) as i64);
                } else {
                    assert(s[t] == rest[t - 1]);
                }
            }
        } else {
            assert(s == rest);
        }
    }
}

/// `pow2(e)` is `pow(2, e)`.
proof fn lemma_pow2_pow(e: nat)
    ensures
        pow2(e) == pow(2, e),
{
    vstd::arithmetic::power2::lemma_pow2(e);
}

/// For an odd prime `p`, `p - 1` is even.
proof fn lemma_odd_p_minus_one(p: int)
    requires
        is_prime_spec(p),
        p >= 3,
    ensures
        (p - 1) % 2int == 0,
{
    assert(p % 2int != 0);
    assert((p - 1) % 2int == 0) by {
        vstd::arithmetic::div_mod::lemma_fundamental_div_mod(p, 2);
        vstd::arithmetic::div_mod::lemma_fundamental_div_mod_converse_mod(
            p - 1,
            2,
            p / 2,
            p % 2 - 1,
        );
    }
}

/// From `p - 1 == q * 2^s` with `s >= 1`: `q <= (p - 1) / 2` and
/// `q * 2^(s-1) == (p - 1) / 2`.
proof fn lemma_q_bound(p: int, q: int, s: int)
    requires
        p >= 3,
        s >= 1,
        q >= 1,
        p - 1 == q * pow(2, s as nat),
    ensures
        q * pow(2, (s - 1) as nat) == (p - 1) / 2,
        1 <= q <= (p - 1) / 2,
        (q + 1) / 2 <= (p - 1) / 2,
{
    vstd::arithmetic::power::lemma_pow_adds(2, 1, (s - 1) as nat);
    vstd::arithmetic::power::lemma_pow1(2);
    assert(pow(2, s as nat) == 2 * pow(2, (s - 1) as nat));
    assert(p - 1 == 2 * (q * pow(2, (s - 1) as nat))) by (nonlinear_arith)
        requires
            p - 1 == q * pow(2, s as nat),
            pow(2, s as nat) == 2 * pow(2, (s - 1) as nat),
    ;
    vstd::arithmetic::div_mod::lemma_div_multiples_vanish(q * pow(2, (s - 1) as nat), 2);
    vstd::arithmetic::power::lemma_pow_positive(2, (s - 1) as nat);
    assert(q * 1 <= q * pow(2, (s - 1) as nat)) by (nonlinear_arith)
        requires
            q >= 1,
            pow(2, (s - 1) as nat) >= 1,
    ;
    vstd::arithmetic::div_mod::lemma_div_is_ordered(q + 1, p - 1, 2);
}

/// `r == n^((q+1)/2)` and `t == n^q` (mod `p`, `q` odd) satisfy
/// `r^2 == t * n` (mod `p`).
proof fn lemma_initial_square(nm: int, q: int, p: int)
    requires
        p >= 3,
        0 <= nm < p,
        q >= 1,
        q % 2int == 1,
    ensures
        (((pow(nm, ((q + 1) / 2) as nat) % p) * (pow(nm, ((q + 1) / 2) as nat) % p)) % p) == ((
        pow(nm, q as nat) % p) * nm) % p,
{
    let h = ((q + 1) / 2) as nat;
    vstd::arithmetic::div_mod::lemma_fundamental_div_mod(q + 1, 2);
    assert(q + 1 == 2 * ((q + 1) / 2) + (q + 1) % 2);
    assert((q + 1) % 2int == 0) by {
        vstd::arithmetic::div_mod::lemma_mod_adds(q, 1, 2);
        vstd::arithmetic::div_mod::lemma_small_mod(1nat, 2nat);
        vstd::arithmetic::div_mod::lemma_mod_twice(q + 1, 2);
    }
    assert(h + h == q + 1);
    vstd::arithmetic::power::lemma_pow_adds(nm, h, h);
    vstd::arithmetic::div_mod::lemma_mul_mod_noop(pow(nm, h), pow(nm, h), p);
    assert(pow(nm, (q + 1) as nat) == pow(nm, q as nat) * pow(nm, 1)) by {
        vstd::arithmetic::power::lemma_pow_adds(nm, q as nat, 1);
    }
    vstd::arithmetic::power::lemma_pow1(nm);
    vstd::arithmetic::div_mod::lemma_mul_mod_noop_left(pow(nm, q as nat), nm, p);
}

/// On the fast path (`s == 1`) the candidate root squares to `n`.
proof fn lemma_fast_path(n: int, nm: int, q: int, p: int, rr: int, t0: int)
    requires
        p >= 3,
        is_prime_spec(p),
        0 <= nm < p,
        nm == n % p,
        q >= 1,
        q % 2int == 1,
        p - 1 == q * pow(2, 1),
        legendre_spec(n, p) == 1,
        0 <= rr < p,
        t0 == pow(nm, q as nat) % p,
        (rr * rr) % p == (t0 * nm) % p,
    ensures
        (rr * rr) % p == n % p,
{
    // q == (p - 1) / 2, so t0 is the Legendre symbol of n, which is 1
    vstd::arithmetic::power::lemma_pow1(2);
    vstd::arithmetic::div_mod::lemma_div_multiples_vanish(q, 2);
    assert(q * 2 == 2 * q) by (nonlinear_arith);
    assert(q == (p - 1) / 2);
    vstd::arithmetic::power::lemma_pow_mod_noop(n, q as nat, p);
    assert(t0 == legendre_spec(n, p));
    vstd::arithmetic::div_mod::lemma_small_mod(1nat, p as nat);
    vstd::arithmetic::div_mod::lemma_small_mod(t0 as nat, p as nat);
    assert(t0 == 1);
    vstd::arithmetic::div_mod::lemma_mul_mod_noop_left(t0, nm, p);
    assert((t0 * nm) % p == ((t0 % p) * nm) % p);
    assert(1int * nm == nm);
    vstd::arithmetic::div_mod::lemma_small_mod(nm as nat, p as nat);
}

/// A value squaring to a nonzero residue is itself nonzero.
proof fn lemma_root_nonzero(n: int, nm: int, p: int, rr: int)
    requires
        p >= 3,
        1 <= nm < p,
        nm == n % p,
        0 <= rr < p,
        (rr * rr) % p == n % p,
    ensures
        1 <= rr,
{
    if rr == 0 {
        assert(rr * rr == 0);
        vstd::arithmetic::div_mod::lemma_small_mod(0nat, p as nat);
        vstd::arithmetic::div_mod::lemma_small_mod(nm as nat, p as nat);
    }
}

/// `p - rr` is the other square root: it squares to the same value and the
/// two roots sum to zero modulo `p`.
proof fn lemma_second_root(p: int, rr: int, n: int)
    requires
        p >= 3,
        1 <= rr < p,
        (rr * rr) % p == n % p,
    ensures
        ((p - rr) * (p - rr)) % p == n % p,
        (rr + (p - rr)) % p == 0,
{
    assert((p - rr) * (p - rr) == p * (p - 2 * rr) + rr * rr) by (nonlinear_arith);
    vstd::arithmetic::div_mod::lemma_mod_multiples_vanish(p - 2 * rr, rr * rr, p);
    vstd::arithmetic::div_mod::lemma_mod_self_0(p);
}

/// After raising a base to the odd power `q`, squaring `s - 1` more times
/// reaches the Legendre symbol: `(base^q)^(2^(s-1)) == base^((p-1)/2)`
/// (mod `p`).
proof fn lemma_order_setup(base: int, q: int, s: nat, p: int, bq: int, target: int)
    requires
        p >= 3,
        0 <= base < p,
        q >= 1,
        s >= 1,
        p - 1 == q * pow(2, s),
        bq == pow(base, q as nat) % p,
        pow(base, ((p - 1) / 2) as nat) % p == target % p,
    ensures
        pow(bq, pow2((s - 1) as nat)) % p == target % p,
{
    lemma_pow2_pow((s - 1) as nat);
    vstd::arithmetic::power::lemma_pow_mod_noop(pow(base, q as nat), pow2((s - 1) as nat), p);
    vstd::arithmetic::power::lemma_pow_multiplies(base, q as nat, pow2((s - 1) as nat));
    lemma_q_bound(p, q, s as int);
    assert(q * pow2((s - 1) as nat) == (p - 1) / 2);
    assert(pow(bq, pow2((s - 1) as nat)) % p == pow(pow(base, q as nat), pow2((s - 1) as nat))
        % p);
    assert(pow(pow(base, q as nat), pow2((s - 1) as nat)) == pow(
        base,
        (q * pow2((s - 1) as nat)) as nat,
    ));
}

/// One round of the Tonelli-Shanks loop preserves its invariants with the
/// new exponent bound `i`.
proof fn lemma_ts_step(
    p: int,
    nm: int,
    m: nat,
    i: nat,
    t: int,
    c: int,
    r: int,
    b: int,
    rn: int,
    cn: int,
    tn: int,
)
    requires
        p >= 3,
        is_prime_spec(p),
        1 <= nm < p,
        2 <= m,
        1 <= i <= m - 1,
        0 <= t < p,
        0 <= c < p,
        0 <= r < p,
        (r * r) % p == (t * nm) % p,
        pow(t, pow2((m - 1) as nat)) % p == 1int % p,
        pow(c, pow2((m - 1) as nat)) % p == (p - 1) % p,
        pow(t, pow2(i)) % p == 1int % p,
        forall|i2: int| 1 <= i2 < i ==> #[trigger] pow(t, pow2(i2 as nat)) % p != 1int % p,
        t != 1,
        b == pow(c, pow2((m - i - 1) as nat)) % p,
        0 <= b < p,
        rn == (r * b) % p,
        cn == (b * b) % p,
        tn == (t * cn) % p,
    ensures
        (rn * rn) % p == (tn * nm) % p,
        pow(tn, pow2((i - 1) as nat)) % p == 1int % p,
        pow(cn, pow2((i - 1) as nat)) % p == (p - 1) % p,
        0 <= tn < p,
        0 <= cn < p,
        0 <= rn < p,
{
    vstd::arithmetic::div_mod::lemma_small_mod(1nat, p as nat);
    vstd::arithmetic::div_mod::lemma_small_mod((p - 1) as nat, p as nat);
    // b^(2^i) == c^(2^(m-1)) == -1 (mod p)
    let bb = pow(c, pow2((m - i - 1) as nat));
    vstd::arithmetic::power::lemma_pow_mod_noop(bb, pow2(i), p);
    vstd::arithmetic::power::lemma_pow_multiplies(c, pow2((m - i - 1) as nat), pow2(i));
    vstd::arithmetic::power2::lemma_pow2_adds((m - i - 1) as nat, i);
    assert(pow2((m - i - 1) as nat) * pow2(i) == pow2((m - 1) as nat));
    assert(pow(b, pow2(i)) % p == pow(c, pow2((m - 1) as nat)) % p);
    assert(pow(b, pow2(i)) % p == (p - 1) % p);
    // cn^(2^(i-1)) == b^(2^i) == -1 (mod p)
    let e1 = pow2((i - 1) as nat);
    vstd::arithmetic::power::lemma_pow_mod_noop(b * b, e1, p);
    vstd::arithmetic::power::lemma_pow_distributes(b, b, e1);
    vstd::arithmetic::power::lemma_pow_adds(b, e1, e1);
    vstd::arithmetic::power2::lemma_pow2_adds((i - 1) as nat, (i - 1) as nat);
    vstd::arithmetic::power2::lemma_pow2_unfold(i);
    assert(e1 + e1 == pow2(i)) by {
        assert(pow2(i) == 2 * pow2((i - 1) as nat));
    }
    assert(pow(cn, e1) % p == pow(b * b, e1) % p);
    assert(pow(b * b, e1) == pow(b, e1) * pow(b, e1));
    assert(pow(b, e1) * pow(b, e1) == pow(b, e1 + e1)) by {
        vstd::arithmetic::power::lemma_pow_adds(b, e1, e1);
    }
    assert(pow(cn, e1) % p == (p - 1) % p);
    // t^(2^(i-1)) is a square root of one, and not one, hence p - 1
    let v = pow(t, e1) % p;
    vstd::arithmetic::div_mod::lemma_mod_bound(pow(t, e1), p);
    vstd::arithmetic::div_mod::lemma_mul_mod_noop(pow(t, e1), pow(t, e1), p);
    vstd::arithmetic::power::lemma_pow_adds(t, e1, e1);
    assert((v * v) % p == pow(t, pow2(i)) % p);
    crate::primes::lemma_sqrt_of_one(p, v);
    if v == 1 {
        if i == 1 {
            assert(e1 == pow2(0));
            vstd::arithmetic::power2::lemma_pow2(0);
            vstd::arithmetic::power::lemma_pow0(2int);
            assert(pow2(0) == 1);
            vstd::arithmetic::power::lemma_pow1(t);
            vstd::arithmetic::div_mod::lemma_small_mod(t as nat, p as nat);
            assert(false);
        } else {
            assert(1 <= i - 1 < i);
            assert(pow(t, pow2((i - 1) as nat)) % p != 1int % p);
            assert(false);
        }
    }
    assert(v == p - 1);
    // tn^(2^(i-1)) == (t^(2^(i-1))) * (cn^(2^(i-1))) == (-1) * (-1) == 1
    vstd::arithmetic::power::lemma_pow_mod_noop(t * cn, e1, p);
    vstd::arithmetic::power::lemma_pow_distributes(t, cn, e1);
    assert(pow(tn, e1) % p == (pow(t, e1) * pow(cn, e1)) % p);
    vstd::arithmetic::div_mod::lemma_mul_mod_noop(pow(t, e1), pow(cn, e1), p);
    assert((pow(t, e1) * pow(cn, e1)) % p == ((p - 1) * (p - 1)) % p);
    assert((p - 1) * (p - 1) == p * (p - 2) + 1) by (nonlinear_arith);
    vstd::arithmetic::div_mod::lemma_mod_multiples_vanish(p - 2, 1int, p);
    // rn^2 == r^2 * b^2 == (t * nm) * cn == tn * nm (mod p)
    vstd::arithmetic::div_mod::lemma_mul_mod_noop(r * b, r * b, p);
    assert((rn * rn) % p == ((r * b) * (r * b)) % p);
    assert((r * b) * (r * b) == (r * r) * (b * b)) by (nonlinear_arith);
    vstd::arithmetic::div_mod::lemma_mul_mod_noop_general(r * r, b * b, p);
    assert(((r * r) * (b * b)) % p == (((r * r) % p) * ((b * b) % p)) % p);
    assert((((r * r) % p) * ((b * b) % p)) % p == (((t * nm) % p) * cn) % p);
    vstd::arithmetic::div_mod::lemma_mul_mod_noop_left(t * nm, cn, p);
    assert((((t * nm) % p) * cn) % p == ((t * nm) * cn) % p);
    assert((t * nm) * cn == (t * cn) * nm) by (nonlinear_arith);
    vstd::arithmetic::div_mod::lemma_mul_mod_noop_left(t * cn, nm, p);
    assert(((t * cn) * nm) % p == (tn * nm) % p);
}

} // verus!
