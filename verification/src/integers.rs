//! Exact integer arithmetic: greatest common divisors, the extended Euclidean
//! algorithm, modular inverses and modular exponentiation.

use vstd::prelude::*;

verus! {

use vstd::arithmetic::div_mod::lemma_fundamental_div_mod;
use vstd::arithmetic::div_mod::lemma_small_mod;
use vstd::arithmetic::power::lemma_pow0;
use vstd::arithmetic::power::lemma_pow1;
use vstd::arithmetic::power::lemma_pow_adds;
use vstd::arithmetic::power::lemma_pow_mod_noop;
use vstd::arithmetic::power::lemma_pow_multiplies;
use vstd::arithmetic::power::lemma_square_is_pow2;
use vstd::arithmetic::power::pow;
use vstd::math::abs;

/// Greatest common divisor of two natural numbers, by Euclid's recursion.
pub open spec fn gcd_nat(a: nat, b: nat) -> nat
    decreases b,
{
    if b == 0 {
        a
    } else {
        gcd_nat(b, a % b)
    }
}

/// `d` divides `a`.
pub open spec fn divides(d: int, a: int) -> bool {
    exists|k: int| a == #[trigger] (d * k)
}

pub proof fn lemma_divides_mod(d: int, a: int)
    requires
        d > 0,
    ensures
        divides(d, a) <==> a % d == 0,
{
    if a % d == 0 {
        lemma_fundamental_div_mod(a, d);
        assert(a == d * (a / d));
    }
    if divides(d, a) {
        let k = choose|k: int| a == #[trigger] (d * k);
        vstd::arithmetic::div_mod::lemma_mod_multiples_basic(k, d);
        assert((d * k) % d == 0);
    }
}

/// A common divisor divides every integer linear combination.
pub proof fn lemma_divides_linear(d: int, a: int, b: int, x: int, y: int)
    requires
        divides(d, a),
        divides(d, b),
    ensures
        divides(d, a * x + b * y),
{
    let ka = choose|k: int| a == #[trigger] (d * k);
    let kb = choose|k: int| b == #[trigger] (d * k);
    assert(a * x + b * y == d * (ka * x + kb * y)) by (nonlinear_arith)
        requires
            a == d * ka,
            b == d * kb,
    ;
}

/// Divisibility is transitive.
pub proof fn lemma_divides_trans(a: int, b: int, c: int)
    requires
        divides(a, b),
        divides(b, c),
    ensures
        divides(a, c),
{
    let k1 = choose|k: int| b == #[trigger] (a * k);
    let k2 = choose|k: int| c == #[trigger] (b * k);
    assert(c == a * (k1 * k2)) by (nonlinear_arith)
        requires
            b == a * k1,
            c == b * k2,
    ;
}

pub proof fn lemma_divides_antisym(a: int, b: int)
    requires
        a >= 0,
        b >= 0,
        divides(a, b),
        divides(b, a),
    ensures
        a == b,
{
    let k1 = choose|k: int| b == #[trigger] (a * k);
    let k2 = choose|k: int| a == #[trigger] (b * k);
    if a == 0 {
        assert(b == 0) by (nonlinear_arith)
            requires
                a == 0,
                b == a * k1,
        ;
    } else {
        assert(a == a * (k1 * k2)) by (nonlinear_arith)
            requires
                b == a * k1,
                a == b * k2,
        ;
        assert(k1 * k2 == 1) by (nonlinear_arith)
            requires
                a == a * (k1 * k2),
                a != 0,
        ;
        assert(k1 == 1) by (nonlinear_arith)
            requires
                k1 * k2 == 1,
                a > 0,
                b >= 0,
                b == a * k1,
        ;
    }
}

/// The gcd divides both of its arguments.
pub proof fn lemma_gcd_divides(a: nat, b: nat)
    ensures
        divides(gcd_nat(a, b) as int, a as int),
        divides(gcd_nat(a, b) as int, b as int),
    decreases b,
{
    if b == 0 {
        assert(a as int == a as int * 1);
        assert(0int == a as int * 0);
    } else {
        lemma_gcd_divides(b, a % b);
        let g = gcd_nat(b, a % b) as int;
        lemma_fundamental_div_mod(a as int, b as int);
        lemma_divides_linear(g, b as int, (a % b) as int, a as int / b as int, 1);
        assert(b as int * (a as int / b as int) + (a % b) as int * 1 == a as int);
    }
}

/// An integer linear combination of `a` and `b`.
pub open spec fn lin_comb(a: int, b: int, x: int, y: int) -> int {
    a * x + b * y
}

/// Bezout's identity: the gcd is an integer linear combination of its arguments.
pub proof fn lemma_gcd_bezout(a: nat, b: nat)
    ensures
        exists|x: int, y: int| #[trigger] lin_comb(a as int, b as int, x, y) == gcd_nat(a, b),
    decreases b,
{
    if b == 0 {
        assert(lin_comb(a as int, b as int, 1, 0) == gcd_nat(a, b));
    } else {
        lemma_gcd_bezout(b, a % b);
        let (x0, y0) = choose|x: int, y: int|
            #[trigger] lin_comb(b as int, (a % b) as int, x, y) == gcd_nat(b, a % b);
        let q = a as int / b as int;
        lemma_fundamental_div_mod(a as int, b as int);
        let x1 = y0;
        let y1 = x0 - q * y0;
        assert(a as int * x1 + b as int * y1 == b as int * x0 + (a as int - b as int * q) * y0)
            by (nonlinear_arith)
            requires
                x1 == y0,
                y1 == x0 - q * y0,
        ;
        assert((a % b) as int == a as int - b as int * q);
        assert(lin_comb(a as int, b as int, x1, y1) == gcd_nat(a, b));
    }
}

/// Every common divisor divides the gcd.
pub proof fn lemma_gcd_greatest(a: nat, b: nat, d: int)
    requires
        divides(d, a as int),
        divides(d, b as int),
    ensures
        divides(d, gcd_nat(a, b) as int),
{
    lemma_gcd_bezout(a, b);
    let (x, y) = choose|x: int, y: int|
        #[trigger] lin_comb(a as int, b as int, x, y) == gcd_nat(a, b);
    lemma_divides_linear(d, a as int, b as int, x, y);
}

/// A nonnegative common divisor that is itself a linear combination of `a` and
/// `b` is the gcd.
pub proof fn lemma_gcd_unique(a: nat, b: nat, d: int)
    requires
        d >= 0,
        divides(d, a as int),
        divides(d, b as int),
        exists|x: int, y: int| #[trigger] lin_comb(a as int, b as int, x, y) == d,
    ensures
        d == gcd_nat(a, b),
{
    let g = gcd_nat(a, b) as int;
    lemma_gcd_greatest(a, b, d);
    let (x, y) = choose|x: int, y: int| #[trigger] lin_comb(a as int, b as int, x, y) == d;
    lemma_gcd_divides(a, b);
    lemma_divides_linear(g, a as int, b as int, x, y);
    lemma_divides_antisym(d, g);
}

/// The gcd is symmetric in its arguments; with the magnitude contract of
/// `gcd`, `a.gcd(b) == b.gcd(a)` for all machine integers.
pub proof fn lemma_gcd_comm(a: nat, b: nat)
    ensures
        gcd_nat(a, b) == gcd_nat(b, a),
{
    lemma_gcd_divides(b, a);
    lemma_gcd_bezout(b, a);
    let (x, y) = choose|x: int, y: int|
        #[trigger] lin_comb(b as int, a as int, x, y) == gcd_nat(b, a);
    assert(lin_comb(a as int, b as int, y, x) == gcd_nat(b, a));
    lemma_gcd_unique(a, b, gcd_nat(b, a) as int);
}

/// The gcd with zero is the other argument; with the magnitude contract of
/// `gcd`, `a.gcd(0)` is the absolute value of `a`.
pub proof fn lemma_gcd_zero(a: nat)
    ensures
        gcd_nat(a, 0) == a,
        gcd_nat(0, a) == a,
{
    if a != 0 {
        lemma_small_mod(0, a);
    }
}

/// Halving both arguments halves the gcd.
pub proof fn lemma_gcd_even_even(a: nat, b: nat)
    ensures
        gcd_nat(2 * a, 2 * b) == 2 * gcd_nat(a, b),
{
    let g = gcd_nat(a, b) as int;
    lemma_gcd_divides(a, b);
    let ka = choose|k: int| a as int == #[trigger] (g * k);
    let kb = choose|k: int| b as int == #[trigger] (g * k);
    assert(2 * a as int == (2 * g) * ka) by (nonlinear_arith)
        requires
            a as int == g * ka,
    ;
    assert(2 * b as int == (2 * g) * kb) by (nonlinear_arith)
        requires
            b as int == g * kb,
    ;
    lemma_gcd_bezout(a, b);
    let (x, y) = choose|x: int, y: int|
        #[trigger] lin_comb(a as int, b as int, x, y) == gcd_nat(a, b);
    assert(2 * a as int * x + 2 * b as int * y == 2 * g) by (nonlinear_arith)
        requires
            a as int * x + b as int * y == g,
    ;
    assert(lin_comb(2 * a as int, 2 * b as int, x, y) == 2 * g);
    lemma_gcd_unique(2 * a, 2 * b, 2 * g);
}

/// An odd number dividing an even product divides its odd cofactor.
proof fn lemma_odd_divides_twice(d: int, a: int)
    requires
        d % 2 == 1,
        divides(d, 2 * a),
    ensures
        divides(d, a),
{
    let k = choose|k: int| 2 * a == #[trigger] (d * k);
    vstd::arithmetic::div_mod::lemma_mul_mod_noop_general(d, k, 2);
    vstd::arithmetic::div_mod::lemma_mod_multiples_basic(a, 2);
    assert((2 * a) % 2 == 0);
    assert(k % 2 == 0);
    assert(a == d * (k / 2)) by (nonlinear_arith)
        requires
            k % 2 == 0,
            2 * a == d * k,
    ;
}

/// A factor of two in one argument is immaterial when the other is odd.
pub proof fn lemma_gcd_even_left(a: nat, b: nat)
    requires
        b % 2 == 1,
    ensures
        gcd_nat(2 * a, b) == gcd_nat(a, b),
{
    let g = gcd_nat(a, b) as int;
    let g1 = gcd_nat(2 * a, b) as int;
    // g divides both 2a and b, hence divides g1.
    lemma_gcd_divides(a, b);
    let ka = choose|k: int| a as int == #[trigger] (g * k);
    assert(2 * a as int == g * (2 * ka)) by (nonlinear_arith)
        requires
            a as int == g * ka,
    ;
    lemma_gcd_greatest(2 * a, b, g);
    // g1 is odd since it divides the odd b.
    lemma_gcd_divides(2 * a, b);
    let kb = choose|k: int| b as int == #[trigger] (g1 * k);
    vstd::arithmetic::div_mod::lemma_mul_mod_noop_general(g1, kb, 2);
    assert(((g1 % 2) * (kb % 2)) % 2 == 1);
    if g1 % 2 == 0 {
        vstd::arithmetic::mul::lemma_mul_by_zero_is_zero(kb % 2);
        assert((g1 % 2) * (kb % 2) == 0);
        assert(false);
    }
    // an odd g1 dividing 2a divides a, hence divides g.
    lemma_odd_divides_twice(g1, a as int);
    lemma_gcd_greatest(a, b, g1);
    lemma_divides_antisym(g, g1);
}

/// Subtracting the smaller argument from the larger keeps the gcd.
pub proof fn lemma_gcd_sub(a: nat, b: nat)
    requires
        a <= b,
    ensures
        gcd_nat(a, b) == gcd_nat(a, (b - a) as nat),
{
    let g = gcd_nat(a, b) as int;
    let g2 = gcd_nat(a, (b - a) as nat) as int;
    lemma_gcd_divides(a, b);
    lemma_divides_linear(g, b as int, a as int, 1, -1);
    assert(b as int * 1 + a as int * -1 == b - a);
    lemma_gcd_greatest(a, (b - a) as nat, g);
    lemma_gcd_divides(a, (b - a) as nat);
    lemma_divides_linear(g2, (b - a) as int, a as int, 1, 1);
    assert((b - a) as int * 1 + a as int * 1 == b as int);
    lemma_gcd_greatest(a, b, g2);
    lemma_divides_antisym(g, g2);
}

/// The gcd of two naturals is no larger than either nonzero argument.
pub proof fn lemma_gcd_bound(a: nat, b: nat)
    ensures
        a > 0 ==> 1 <= gcd_nat(a, b) <= a,
        b > 0 ==> 1 <= gcd_nat(a, b) <= b,
        gcd_nat(a, b) == 0 ==> a == 0 && b == 0,
    decreases b,
{
    lemma_gcd_divides(a, b);
    let g = gcd_nat(a, b) as int;
    let ka = choose|k: int| a as int == #[trigger] (g * k);
    let kb = choose|k: int| b as int == #[trigger] (g * k);
    if a > 0 {
        assert(1 <= g <= a) by (nonlinear_arith)
            requires
                a as int == g * ka,
                a > 0,
                g >= 0,
        ;
    }
    if b > 0 {
        assert(1 <= g <= b) by (nonlinear_arith)
            requires
                b as int == g * kb,
                b > 0,
                g >= 0,
        ;
    }
    if g == 0 {
        assert(a as int == 0 * ka && b as int == 0 * kb);
        assert(a == 0 && b == 0) by (nonlinear_arith)
            requires
                a as int == 0 * ka,
                b as int == 0 * kb,
        ;
    }
}

/// The magnitude of a machine integer, as an unsigned machine integer.
pub fn abs_u64(a: i64) -> (r: u64)
    ensures
        r == abs(a as int),
{
    if a >= 0 {
        a as u64
    } else if a == i64::MIN {
        9223372036854775808u64
    } else {
        (-a) as u64
    }
}

/// Binary (shift-and-subtract) greatest common divisor on magnitudes.
pub fn gcd_u64(a0: u64, b0: u64) -> (r: u64)
    ensures
        r == gcd_nat(a0 as nat, b0 as nat),
{
    let mut m = a0;
    let mut n = b0;
    if m == 0 {
        proof { lemma_gcd_zero(b0 as nat) };
        return n;
    }
    if n == 0 {
        proof { lemma_gcd_zero(a0 as nat) };
        return m;
    }
    // strip the common factors of two, recording them in `p`
    let mut p: u64 = 1;
    while m % 2 == 0 && n % 2 == 0
        invariant
            1 <= m,
            1 <= n,
            1 <= p,
            p * m <= a0,
            p * n <= b0,
            gcd_nat(a0 as nat, b0 as nat) == p * gcd_nat(m as nat, n as nat),
        decreases m,
    {
        proof {
            lemma_gcd_even_even((m / 2) as nat, (n / 2) as nat);
            assert(p * gcd_nat(m as nat, n as nat) == (2 * p) * gcd_nat(
                (m / 2) as nat,
                (n / 2) as nat,
            )) by (nonlinear_arith)
                requires
                    gcd_nat(m as nat, n as nat) == 2 * gcd_nat((m / 2) as nat, (n / 2) as nat),
            ;
            assert((2 * p) * (m / 2) as int <= a0 && (2 * p) * (n / 2) as int <= b0 && 2 * p
                <= a0) by (nonlinear_arith)
                requires
                    p * m <= a0,
                    p * n <= b0,
                    m % 2 == 0,
                    n % 2 == 0,
                    m >= 1,
                    n >= 1,
                    p >= 1,
            ;
        }
        m = m / 2;
        n = n / 2;
        p = p * 2;
    }
    // make m odd; the gcd is unchanged since n is then odd whenever m is even
    while m % 2 == 0
        invariant
            1 <= m,
            1 <= n,
            m % 2 == 0 ==> n % 2 == 1,
            gcd_nat(a0 as nat, b0 as nat) == p * gcd_nat(m as nat, n as nat),
        decreases m,
    {
        proof {
            lemma_gcd_even_left((m / 2) as nat, n as nat);
        }
        m = m / 2;
    }
    // m stays odd; halve n while even, then subtract the smaller from the larger
    loop
        invariant_except_break
            1 <= m,
            1 <= n,
            m % 2 == 1,
            gcd_nat(a0 as nat, b0 as nat) == p * gcd_nat(m as nat, n as nat),
        ensures
            n == 0,
            gcd_nat(a0 as nat, b0 as nat) == p * m,
        decreases m + n,
    {
        let ghost n_in: u64 = n;
        while n % 2 == 0
            invariant
                1 <= m,
                1 <= n,
                n <= n_in,
                m % 2 == 1,
                gcd_nat(a0 as nat, b0 as nat) == p * gcd_nat(m as nat, n as nat),
            decreases n,
        {
            proof {
                lemma_gcd_comm(m as nat, n as nat);
                lemma_gcd_even_left((n / 2) as nat, m as nat);
                lemma_gcd_comm((n / 2) as nat, m as nat);
            }
            n = n / 2;
        }
        if m > n {
            let t = m;
            m = n;
            n = t;
            proof { lemma_gcd_comm(m as nat, n as nat) };
        }
        proof {
            lemma_gcd_sub(m as nat, n as nat);
        }
        n = n - m;
        if n == 0 {
            proof { lemma_gcd_zero(m as nat) };
            break ;
        }
    }
    proof {
        lemma_gcd_bound(a0 as nat, b0 as nat);
        assert(p * m <= a0 || p * m <= b0) by (nonlinear_arith)
            requires
                gcd_nat(a0 as nat, b0 as nat) == p * m,
                a0 >= 1,
                b0 >= 1,
                gcd_nat(a0 as nat, b0 as nat) <= a0,
                gcd_nat(a0 as nat, b0 as nat) <= b0,
        ;
    }
    p * m
}

/// Least common multiple of two integers, `0` when either argument is `0`,
/// otherwise `(a * b) / gcd(|a|, |b|)` (so its sign is the sign of `a * b`).
pub open spec fn lcm_int(a: int, b: int) -> int {
    if a == 0 || b == 0 {
        0
    } else {
        (a * b) / (gcd_nat(abs(a), abs(b)) as int)
    }
}

/// Iterative extended Euclidean algorithm on magnitudes.  Returns the gcd
/// together with Bezout coefficients whose magnitudes stay below the inputs.
fn ext_euclid_core(aa: u64, bb: u64) -> (r: (u64, i128, i128))
    requires
        aa <= 0x8000_0000_0000_0000,
        bb <= 0x8000_0000_0000_0000,
    ensures
        r.0 == gcd_nat(aa as nat, bb as nat),
        aa as int * r.1 as int + bb as int * r.2 as int == r.0 as int,
        -vstd::math::max(bb as int, 1) <= r.1 as int <= vstd::math::max(bb as int, 1),
        -vstd::math::max(aa as int, 1) <= r.2 as int <= vstd::math::max(aa as int, 1),
{
    let mut r0: i128 = aa as i128;
    let mut s0: i128 = 1;
    let mut t0: i128 = 0;
    let mut r1: i128 = bb as i128;
    let mut s1: i128 = 0;
    let mut t1: i128 = 1;
    let ghost smax: int = vstd::math::max(bb as int, 1);
    let ghost tmax: int = vstd::math::max(aa as int, 1);
    let ghost mut e: int = -1;
    while r1 != 0
        invariant
            aa <= 0x8000_0000_0000_0000,
            bb <= 0x8000_0000_0000_0000,
            0 <= r0 <= vstd::math::max(aa as int, bb as int),
            0 <= r1 <= vstd::math::max(aa as int, bb as int),
            aa as int * s0 as int + bb as int * t0 as int == r0 as int,
            aa as int * s1 as int + bb as int * t1 as int == r1 as int,
            gcd_nat(r0 as nat, r1 as nat) == gcd_nat(aa as nat, bb as nat),
            s0 as int * s1 as int <= 0,
            t0 as int * t1 as int <= 0,
            e == 1 || e == -1,
            s1 as int * r0 as int - s0 as int * r1 as int == e * bb as int,
            t1 as int * r0 as int - t0 as int * r1 as int == -e * aa as int,
            smax == vstd::math::max(bb as int, 1),
            tmax == vstd::math::max(aa as int, 1),
            -smax <= s0 as int <= smax,
            -smax <= s1 as int <= smax,
            -tmax <= t0 as int <= tmax,
            -tmax <= t1 as int <= tmax,
        decreases r1,
    {
        let q = r0 / r1;
        proof {
            lemma_fundamental_div_mod(r0 as int, r1 as int);
            vstd::arithmetic::div_mod::lemma_div_pos_is_pos(r0 as int, r1 as int);
            vstd::arithmetic::div_mod::lemma_div_nonincreasing(r0 as int, r1 as int);
            vstd::arithmetic::mul::lemma_mul_is_commutative(r0 as int / r1 as int, r1 as int);
        }
        let r2 = r0 - q * r1;
        assert(r2 == r0 as int % r1 as int);
        assert(0 <= r2 < r1);
        assert(-0x4000_0000_0000_0000_0000_0000_0000_0000 <= q as int * s1 as int
            <= 0x4000_0000_0000_0000_0000_0000_0000_0000) by (nonlinear_arith)
            requires
                0 <= q as int <= 0x8000_0000_0000_0000,
                -0x8000_0000_0000_0000 <= s1 as int <= 0x8000_0000_0000_0000,
        ;
        let s2 = s0 - q * s1;
        assert(-0x4000_0000_0000_0000_0000_0000_0000_0000 <= q as int * t1 as int
            <= 0x4000_0000_0000_0000_0000_0000_0000_0000) by (nonlinear_arith)
            requires
                0 <= q as int <= 0x8000_0000_0000_0000,
                -0x8000_0000_0000_0000 <= t1 as int <= 0x8000_0000_0000_0000,
        ;
        let t2 = t0 - q * t1;
        proof {
            // Bezout equations are preserved
            assert(aa as int * s2 as int + bb as int * t2 as int == r2 as int) by (nonlinear_arith)
                requires
                    s2 as int == s0 as int - q as int * s1 as int,
                    t2 as int == t0 as int - q as int * t1 as int,
                    r2 as int == r0 as int - q as int * r1 as int,
                    aa as int * s0 as int + bb as int * t0 as int == r0 as int,
                    aa as int * s1 as int + bb as int * t1 as int == r1 as int,
            ;
            // sign alternation is preserved
            assert(s1 as int * s2 as int <= 0 && t1 as int * t2 as int <= 0) by (nonlinear_arith)
                requires
                    s2 as int == s0 as int - q as int * s1 as int,
                    t2 as int == t0 as int - q as int * t1 as int,
                    s0 as int * s1 as int <= 0,
                    t0 as int * t1 as int <= 0,
                    q as int >= 0,
            ;
            // the determinant identities are preserved with the opposite sign
            assert(s2 as int * r1 as int - s1 as int * r2 as int == (-e) * bb as int
                && t2 as int * r1 as int - t1 as int * r2 as int == -(-e) * aa as int)
                by (nonlinear_arith)
                requires
                    s2 as int == s0 as int - q as int * s1 as int,
                    t2 as int == t0 as int - q as int * t1 as int,
                    r2 as int == r0 as int - q as int * r1 as int,
                    s1 as int * r0 as int - s0 as int * r1 as int == e * bb as int,
                    t1 as int * r0 as int - t0 as int * r1 as int == -e * aa as int,
            ;
            // which bounds the new coefficients by the inputs
            assert(-smax <= s2 as int <= smax) by (nonlinear_arith)
                requires
                    s2 as int * r1 as int - s1 as int * r2 as int == (-e) * bb as int,
                    e == 1 || e == -1,
                    s1 as int * s2 as int <= 0,
                    r1 as int >= 1,
                    r2 as int >= 0,
                    smax == vstd::math::max(bb as int, 1),
                    bb as int >= 0,
                    smax >= bb as int,
                    smax >= 1,
            ;
            assert(-tmax <= t2 as int <= tmax) by (nonlinear_arith)
                requires
                    t2 as int * r1 as int - t1 as int * r2 as int == -(-e) * aa as int,
                    e == 1 || e == -1,
                    t1 as int * t2 as int <= 0,
                    r1 as int >= 1,
                    r2 as int >= 0,
                    tmax == vstd::math::max(aa as int, 1),
                    aa as int >= 0,
                    tmax >= aa as int,
                    tmax >= 1,
            ;
        }
        r0 = r1;
        s0 = s1;
        t0 = t1;
        r1 = r2;
        s1 = s2;
        t1 = t2;
        proof {
            e = -e;
        }
    }
    proof {
        lemma_gcd_zero(r0 as nat);
    }
    (r0 as u64, s0, t0)
}

/// The extended Euclidean algorithm: gcd plus Bezout coefficients.
pub trait ExtEuclid: Sized {
    /// Inputs on which the algorithm is defined for this type.
    spec fn ext_euclid_req(self, rhs: Self) -> bool;

    /// What it means for `r` to be a correct gcd / Bezout triple.
    spec fn is_ext_euclid(self, rhs: Self, r: [Self; 3]) -> bool;

    /// Returns `[d, x, y]` with `d == gcd(self, rhs)` and
    /// `self * x + rhs * y == d`.
    fn ext_euclid(self, rhs: Self) -> (r: [Self; 3])
        requires
            self.ext_euclid_req(rhs),
        ensures
            self.is_ext_euclid(rhs, r),
    ;
}

impl ExtEuclid for i64 {
    open spec fn ext_euclid_req(self, rhs: Self) -> bool {
        self > i64::MIN && rhs > i64::MIN
    }

    open spec fn is_ext_euclid(self, rhs: Self, r: [i64; 3]) -> bool {
        &&& r[0] as int == gcd_nat(abs(self as int), abs(rhs as int))
        &&& self as int * r[1] as int + rhs as int * r[2] as int == r[0] as int
        &&& -vstd::math::max(abs(rhs as int) as int, 1) <= r[1] as int <= vstd::math::max(
            abs(rhs as int) as int,
            1,
        )
        &&& -vstd::math::max(abs(self as int) as int, 1) <= r[2] as int <= vstd::math::max(
            abs(self as int) as int,
            1,
        )
    }

    fn ext_euclid(self, rhs: Self) -> (r: [i64; 3]) {
        let aa = abs_u64(self);
        let bb = abs_u64(rhs);
        let (g, x, y) = ext_euclid_core(aa, bb);
        proof {
            lemma_gcd_bound(aa as nat, bb as nat);
        }
        let xs: i128 = if self < 0 {
            -x
        } else {
            x
        };
        let ys: i128 = if rhs < 0 {
            -y
        } else {
            y
        };
        assert(self as int * xs as int == aa as int * x as int) by (nonlinear_arith)
            requires
                ((self as int) >= 0 && aa as int == self as int && xs as int == x as int) || ((
                self as int) < 0 && aa as int == -(self as int) && xs as int == -(x as int)),
        ;
        assert(rhs as int * ys as int == bb as int * y as int) by (nonlinear_arith)
            requires
                ((rhs as int) >= 0 && bb as int == rhs as int && ys as int == y as int) || ((
                rhs as int) < 0 && bb as int == -(rhs as int) && ys as int == -(y as int)),
        ;
        [g as i64, xs as i64, ys as i64]
    }
}

/// The gcd obtained through the extended Euclidean algorithm.
pub trait GCDEuclid: ExtEuclid {
    spec fn is_gcd_euclid(self, rhs: Self, r: Self) -> bool;

    fn gcd_euclid(self, rhs: Self) -> (r: Self)
        requires
            self.ext_euclid_req(rhs),
        ensures
            self.is_gcd_euclid(rhs, r),
    ;
}

impl GCDEuclid for i64 {
    open spec fn is_gcd_euclid(self, rhs: Self, r: Self) -> bool {
        r as int == gcd_nat(abs(self as int), abs(rhs as int))
    }

    fn gcd_euclid(self, rhs: Self) -> (r: Self) {
        let t = self.ext_euclid(rhs);
        t[0]
    }
}

/// Magnitude-only greatest common divisor.
pub trait GCD: Sized {
    /// Inputs whose gcd is representable in this type.
    spec fn gcd_req(self, rhs: Self) -> bool;

    /// What it means for `r` to be the gcd of the magnitudes.
    spec fn is_gcd(self, rhs: Self, r: Self) -> bool;

    fn gcd(self, rhs: Self) -> (r: Self)
        requires
            self.gcd_req(rhs),
        ensures
            self.is_gcd(rhs, r),
    ;
}

impl GCD for i64 {
    open spec fn gcd_req(self, rhs: Self) -> bool {
        gcd_nat(abs(self as int), abs(rhs as int)) <= i64::MAX
    }

    open spec fn is_gcd(self, rhs: Self, r: Self) -> bool {
        r as int == gcd_nat(abs(self as int), abs(rhs as int))
    }

    fn gcd(self, rhs: Self) -> (r: Self) {
        let g = gcd_u64(abs_u64(self), abs_u64(rhs));
        g as i64
    }
}

/// Least common multiple, `0` when either argument is `0`.
pub trait LCM: GCD {
    spec fn lcm_req(self, rhs: Self) -> bool;

    spec fn is_lcm(self, rhs: Self, r: Self) -> bool;

    fn lcm(self, rhs: Self) -> (r: Self)
        requires
            self.lcm_req(rhs),
        ensures
            self.is_lcm(rhs, r),
    ;
}

impl LCM for i64 {
    open spec fn lcm_req(self, rhs: Self) -> bool {
        &&& self > i64::MIN
        &&& rhs > i64::MIN
        &&& -i64::MAX <= lcm_int(self as int, rhs as int) <= i64::MAX
    }

    open spec fn is_lcm(self, rhs: Self, r: Self) -> bool {
        r as int == lcm_int(self as int, rhs as int)
    }

    fn lcm(self, rhs: Self) -> (r: Self) {
        proof {
            assert(self.lcm_req(rhs));
            assert(-i64::MAX <= lcm_int(self as int, rhs as int) <= i64::MAX);
        }
        if self == 0 || rhs == 0 {
            proof {
                assert(lcm_int(self as int, rhs as int) == 0);
                assert(self.is_lcm(rhs, 0i64));
            }
            return 0;
        }
        let aa = abs_u64(self);
        let bb = abs_u64(rhs);
        let g = gcd_u64(aa, bb);
        proof {
            lemma_gcd_bound(aa as nat, bb as nat);
        }
        let qa = aa / g;
        proof {
            lemma_lcm_quotient(self as int, rhs as int, aa as int, bb as int, g as int, qa as int);
        }
        let mag = qa * bb;
        if (self < 0) != (rhs < 0) {
            -(mag as i64)
        } else {
            mag as i64
        }
    }
}

/// The magnitude of the least common multiple is `(|a| / g) * |b|`, and the
/// value carries the sign of `a * b`.
proof fn lemma_lcm_quotient(a: int, b: int, aa: int, bb: int, g: int, qa: int)
    requires
        a != 0,
        b != 0,
        aa == abs(a),
        bb == abs(b),
        g == gcd_nat(abs(a), abs(b)),
        g >= 1,
        qa == aa / g,
        -i64::MAX <= lcm_int(a, b) <= i64::MAX,
    ensures
        qa * bb == abs(lcm_int(a, b)),
        0 <= qa * bb <= i64::MAX,
        (a < 0) != (b < 0) ==> lcm_int(a, b) == -(qa * bb),
        (a < 0) == (b < 0) ==> lcm_int(a, b) == qa * bb,
{
    lemma_lcm_magnitude(a, b);
    lemma_gcd_divides(abs(a), abs(b));
    lemma_divides_mod(g, aa);
    lemma_fundamental_div_mod(aa, g);
    assert(aa == g * qa);
    assert(qa * bb == (aa * bb) / g) by (nonlinear_arith)
        requires
            aa == g * qa,
            g >= 1,
    {
        vstd::arithmetic::div_mod::lemma_div_multiples_vanish(qa * bb, g);
    }
    assert(qa * bb >= 0) by (nonlinear_arith)
        requires
            aa == g * qa,
            aa >= 1,
            g >= 1,
            bb >= 1,
    ;
}

/// For nonzero `a`, `b`: `lcm_int(a, b) == sign(a * b) * (|a| * |b|) / g`,
/// so its magnitude is `(|a| * |b|) / g`.
proof fn lemma_lcm_magnitude(a: int, b: int)
    requires
        a != 0,
        b != 0,
    ensures
        abs(lcm_int(a, b)) == (abs(a) * abs(b)) as int / (gcd_nat(abs(a), abs(b)) as int),
        (a < 0) != (b < 0) ==> lcm_int(a, b) == -((abs(a) * abs(b)) as int / (gcd_nat(
            abs(a),
            abs(b),
        ) as int)),
        (a < 0) == (b < 0) ==> lcm_int(a, b) == (abs(a) * abs(b)) as int / (gcd_nat(
            abs(a),
            abs(b),
        ) as int),
        abs(lcm_int(a, b)) <= abs(a) * abs(b),
{
    let g = gcd_nat(abs(a), abs(b)) as int;
    let m = abs(a) * abs(b);
    lemma_gcd_bound(abs(a), abs(b));
    lemma_gcd_divides(abs(a), abs(b));
    let ka = choose|k: int| abs(a) as int == #[trigger] (g * k);
    assert(m as int == g * (ka * abs(b))) by (nonlinear_arith)
        requires
            abs(a) as int == g * ka,
            m == abs(a) * abs(b),
    ;
    vstd::arithmetic::div_mod::lemma_div_multiples_vanish(ka * abs(b) as int, g);
    assert(m as int / g == ka * abs(b));
    assert(ka >= 0 && ka * abs(b) >= 0) by (nonlinear_arith)
        requires
            abs(a) as int == g * ka,
            g >= 1,
            abs(a) >= 1,
    ;
    if (a < 0) != (b < 0) {
        assert(a * b == -m) by (nonlinear_arith)
            requires
                m == abs(a) * abs(b),
                (a < 0 && b > 0 && abs(a) == -a && abs(b) == b) || (a > 0 && b < 0 && abs(a) == a
                    && abs(b) == -b),
        ;
        assert((-m as int) == g * (-(ka * abs(b)))) by (nonlinear_arith)
            requires
                m as int == g * (ka * abs(b)),
        ;
        vstd::arithmetic::div_mod::lemma_div_multiples_vanish(-(ka * abs(b) as int), g);
    } else {
        assert(a * b == m) by (nonlinear_arith)
            requires
                m == abs(a) * abs(b),
                (a < 0 && b < 0 && abs(a) == -a && abs(b) == -b) || (a > 0 && b > 0 && abs(a) == a
                    && abs(b) == b),
        ;
    }
    assert(g * (ka * abs(b)) >= 1 * (ka * abs(b))) by (nonlinear_arith)
        requires
            g >= 1,
            ka * abs(b) >= 0,
    ;
}

/// Multiplicative inverse modulo `m`, when it exists.
pub trait Inverse: ExtEuclid {
    spec fn inv_req(self, modulo: Self) -> bool;

    spec fn is_inv(self, modulo: Self, r: Option<Self>) -> bool;

    fn inv(self, modulo: Self) -> (r: Option<Self>)
        requires
            self.inv_req(modulo),
        ensures
            self.is_inv(modulo, r),
    ;
}

impl Inverse for i64 {
    open spec fn inv_req(self, modulo: Self) -> bool {
        self > i64::MIN && modulo >= 1
    }

    open spec fn is_inv(self, modulo: Self, r: Option<Self>) -> bool {
        match r {
            Some(v) => {
                &&& gcd_nat(abs(self as int), modulo as nat) == 1
                &&& 0 <= v < modulo
                &&& (self as int * v as int) % modulo as int == 1int % modulo as int
            },
            None => gcd_nat(abs(self as int), modulo as nat) != 1,
        }
    }

    fn inv(self, modulo: Self) -> (r: Option<Self>) {
        let t = self.ext_euclid(modulo);
        if t[0] == 1 {
            let x = t[1];
            let mut v: i64 = x;
            let ghost mut k: int = 0;
            if v < 0 {
                v = v + modulo;
                proof {
                    k = 1;
                }
            }
            if v >= modulo {
                v = v - modulo;
                proof {
                    k = k - 1;
                }
            }
            proof {
                let m = modulo as int;
                assert((k == 1 && v == x + m) || (k == 0 && v == x) || (k == -1 && v == x - m));
                assert(v == x + m * k) by (nonlinear_arith)
                    requires
                        (k == 1 && v as int == x as int + m) || (k == 0 && v == x) || (k == -1
                            && v as int == x as int - m),
                ;
                assert(self as int * v as int == self as int * x as int + m * (self as int * k))
                    by (nonlinear_arith)
                    requires
                        v as int == x as int + m * k,
                ;
                vstd::arithmetic::div_mod::lemma_mod_multiples_vanish(
                    self as int * k,
                    self as int * x as int,
                    m,
                );
                assert((self as int * v as int) % m == (self as int * x as int) % m);
                assert(self as int * x as int == m * (-(t[2] as int)) + 1) by (nonlinear_arith)
                    requires
                        self as int * x as int + modulo as int * t[2] as int == 1,
                        m == modulo as int,
                ;
                vstd::arithmetic::div_mod::lemma_mod_multiples_vanish(-(t[2] as int), 1int, m);
                assert((self as int * v as int) % m == 1int % m);
                assert(gcd_nat(abs(self as int), modulo as nat) == 1);
                assert(0 <= v < modulo);
            }
            Some(v)
        } else {
            None
        }
    }
}

/// Modular product of two reduced residues, without intermediate overflow.
pub fn mul_mod_u64(a: u64, b: u64, m: u64) -> (r: u64)
    requires
        m >= 1,
    ensures
        r as int == (a as int * b as int) % (m as int),
        r < m,
{
    proof {
        vstd::arithmetic::mul::lemma_mul_upper_bound(
            a as int,
            0xffff_ffff_ffff_ffffint,
            b as int,
            0xffff_ffff_ffff_ffffint,
        );
    }
    let p = (a as u128) * (b as u128);
    (p % (m as u128)) as u64
}

/// Modular exponentiation by repeated squaring, lowest exponent bit first.
pub fn pow_mod_u64(base: u64, e: u64, m: u64) -> (r: u64)
    requires
        m >= 1,
    ensures
        r as int == pow(base as int, e as nat) % (m as int),
        r < m,
{
    let mut result: u64 = 1 % m;
    let mut b: u64 = base % m;
    let mut k: u64 = e;
    proof {
        lemma_pow_mod_noop(base as int, e as nat, m as int);
        vstd::arithmetic::div_mod::lemma_mul_mod_noop_left(
            1int,
            pow(base as int % m as int, e as nat),
            m as int,
        );
        lemma_pow_mod_noop(base as int % m as int, e as nat, m as int);
        assert((1int % m as int * pow(base as int % m as int, e as nat)) % m as int == pow(
            base as int,
            e as nat,
        ) % m as int);
    }
    while k > 0
        invariant
            m >= 1,
            result < m,
            b < m,
            (result as int * pow(b as int, k as nat)) % (m as int) == pow(base as int, e as nat)
                % (m as int),
        decreases k,
    {
        let ghost r0 = result as int;
        let ghost b0 = b as int;
        let ghost k0 = k as nat;
        let ghost m1 = m as int;
        if k % 2 == 1 {
            result = mul_mod_u64(result, b, m);
        }
        k = k / 2;
        b = mul_mod_u64(b, b, m);
        proof {
            let j = k as nat;
            lemma_square_is_pow2(b0);
            lemma_pow_multiplies(b0, 2, j);
            assert(pow(b0 * b0, j) == pow(b0, 2 * j));
            // pow of the squared-and-reduced base agrees modulo m
            lemma_pow_mod_noop(b0 * b0, j, m1);
            assert(pow(b as int, j) % m1 == pow(b0 * b0, j) % m1);
            if k0 % 2 == 1 {
                assert(result as int == (r0 * b0) % m1);
                vstd::arithmetic::div_mod::lemma_mul_mod_noop_general(
                    r0 * b0,
                    pow(b as int, j),
                    m1,
                );
                assert((result as int * pow(b as int, j)) % m1 == ((r0 * b0) * (pow(
                    b as int,
                    j,
                ) % m1)) % m1);
                vstd::arithmetic::div_mod::lemma_mul_mod_noop_right(
                    r0 * b0,
                    pow(b0 * b0, j),
                    m1,
                );
                lemma_pow1(b0);
                lemma_pow_adds(b0, 1, 2 * j);
                assert(pow(b0, k0) == b0 * pow(b0, 2 * j));
                assert((r0 * b0) * pow(b0 * b0, j) == r0 * pow(b0, k0)) by (nonlinear_arith)
                    requires
                        pow(b0 * b0, j) == pow(b0, 2 * j),
                        pow(b0, k0) == b0 * pow(b0, 2 * j),
                ;
            } else {
                vstd::arithmetic::div_mod::lemma_mul_mod_noop_right(r0, pow(b as int, j), m1);
                vstd::arithmetic::div_mod::lemma_mul_mod_noop_right(r0, pow(b0 * b0, j), m1);
                assert(pow(b0, k0) == pow(b0 * b0, j));
            }
        }
    }
    proof {
        lemma_pow0(b as int);
        lemma_small_mod(result as nat, m as nat);
    }
    result
}

/// The magnitude of a power is the power of the magnitude.
pub proof fn lemma_pow_abs(b: int, e: nat)
    ensures
        abs(pow(b, e)) == pow(abs(b) as int, e),
    decreases e,
{
    reveal(pow);
    if e > 0 {
        lemma_pow_abs(b, (e - 1) as nat);
        assert(pow(b, e) == b * pow(b, (e - 1) as nat));
        assert(abs(b * pow(b, (e - 1) as nat)) == abs(b) * abs(pow(b, (e - 1) as nat)))
            by (nonlinear_arith);
        assert(pow(abs(b) as int, e) == abs(b) * pow(abs(b) as int, (e - 1) as nat));
    }
}

/// The Euclidean remainder of a machine integer modulo a positive modulus.
pub fn euclid_mod_i64(a: i64, m: i64) -> (r: u64)
    requires
        m >= 1,
    ensures
        r as int == a as int % m as int,
        r < m,
{
    let mu = m as u64;
    let au = abs_u64(a);
    let rm = au % mu;
    let r: u64 = if a < 0 && rm != 0 {
        mu - rm
    } else {
        rm
    };
    proof {
        let s = a as int;
        let mi = m as int;
        if s >= 0 {
            assert(r as int == s % mi);
        } else {
            lemma_fundamental_div_mod(au as int, mi);
            let q = au as int / mi;
            if rm == 0 {
                assert(s == mi * (-q) + 0) by (nonlinear_arith)
                    requires
                        s == -(au as int),
                        au as int == mi * q + 0,
                ;
                vstd::arithmetic::div_mod::lemma_fundamental_div_mod_converse_mod(s, mi, -q, 0);
            } else {
                assert(s == mi * (-q - 1) + (mi - rm as int)) by (nonlinear_arith)
                    requires
                        s == -(au as int),
                        au as int == mi * q + rm as int,
                ;
                vstd::arithmetic::div_mod::lemma_fundamental_div_mod_converse_mod(
                    s,
                    mi,
                    -q - 1,
                    mi - rm as int,
                );
            }
            assert(r as int == s % mi);
        }
    }
    r
}

/// Basic integer operations used throughout the sieve.
pub trait Integer: Sized {
    spec fn abs_req(self) -> bool;

    spec fn is_abs(self, r: Self) -> bool;

    spec fn pow_req(self, e: u32) -> bool;

    spec fn is_pow(self, e: u32, r: Self) -> bool;

    spec fn pow_mod_req(self, e: u32, m: Self) -> bool;

    spec fn is_pow_mod(self, e: u32, m: Self, r: Self) -> bool;

    spec fn squared_req(self) -> bool;

    spec fn is_squared(self, r: Self) -> bool;

    fn abs(&self) -> (r: Self)
        requires
            self.abs_req(),
        ensures
            self.is_abs(r),
    ;

    fn pow(&self, e: u32) -> (r: Self)
        requires
            self.pow_req(e),
        ensures
            self.is_pow(e, r),
    ;

    /// `self^e` reduced modulo `m`, reducing after every multiplication.
    fn pow_mod(&self, e: u32, m: Self) -> (r: Self)
        requires
            self.pow_mod_req(e, m),
        ensures
            self.is_pow_mod(e, m, r),
    ;

    fn squared(&self) -> (r: Self)
        requires
            self.squared_req(),
        ensures
            self.is_squared(r),
    ;
}

impl Integer for i64 {
    open spec fn abs_req(self) -> bool {
        self > i64::MIN
    }

    open spec fn is_abs(self, r: Self) -> bool {
        r == abs(self as int)
    }

    open spec fn pow_req(self, e: u32) -> bool {
        self > i64::MIN && pow(abs(self as int) as int, e as nat) <= i64::MAX
    }

    open spec fn is_pow(self, e: u32, r: Self) -> bool {
        r as int == pow(self as int, e as nat)
    }

    open spec fn pow_mod_req(self, e: u32, m: Self) -> bool {
        self > i64::MIN && m >= 1
    }

    open spec fn is_pow_mod(self, e: u32, m: Self, r: Self) -> bool {
        r as int == pow(self as int, e as nat) % (m as int) && 0 <= r < m
    }

    open spec fn squared_req(self) -> bool {
        self as int * self as int <= i64::MAX
    }

    open spec fn is_squared(self, r: Self) -> bool {
        r as int == self as int * self as int
    }

    fn abs(&self) -> (r: Self) {
        if *self < 0 {
            -*self
        } else {
            *self
        }
    }

    fn pow(&self, e: u32) -> (r: Self) {
        let mut result: i64 = 1;
        let mut i: u32 = 0;
        proof {
            lemma_pow0(self as int);
            lemma_pow0(abs(self as int) as int);
        }
        while i < e
            invariant
                i <= e,
                self.pow_req(e),
                result as int == pow(self as int, i as nat),
                abs(result as int) == pow(abs(self as int) as int, i as nat),
            decreases e - i,
        {
            proof {
                reveal(pow);
                let a = abs(self as int) as int;
                lemma_pow_abs(self as int, (i + 1) as nat);
                assert(pow(a, (i + 1) as nat) == a * pow(a, i as nat));
                if a >= 1 {
                    if i + 1 <= e {
                        vstd::arithmetic::power::lemma_pow_increases(
                            a as nat,
                            (i + 1) as nat,
                            e as nat,
                        );
                    }
                } else {
                    assert(a == 0);
                    assert(a * pow(a, i as nat) == 0) by (nonlinear_arith)
                        requires
                            a == 0,
                    ;
                }
                assert(pow(self as int, (i + 1) as nat) == self as int * pow(
                    self as int,
                    i as nat,
                ));
                vstd::arithmetic::mul::lemma_mul_is_commutative(self as int, pow(
                    self as int,
                    i as nat,
                ));
            }
            result = result * *self;
            i = i + 1;
        }
        result
    }

    fn pow_mod(&self, e: u32, m: Self) -> (r: Self) {
        let bm = euclid_mod_i64(*self, m);
        let r = pow_mod_u64(bm, e as u64, m as u64);
        proof {
            lemma_pow_mod_noop(self as int, e as nat, m as int);
        }
        r as i64
    }

    fn squared(&self) -> (r: Self) {
        proof {
            assert(self as int * self as int >= 0) by (nonlinear_arith);
        }
        *self * *self
    }
}

/// Raising any base to the zeroth power yields the multiplicative identity
/// modulo `m`.
pub proof fn lemma_pow_mod_zero_exponent(a: int, m: int)
    requires
        m >= 1,
    ensures
        pow(a, 0) % m == 1int % m,
{
    lemma_pow0(a);
}

/// When `gcd(|a|, m) != 1`, nothing is an inverse of `a` modulo `m`.
pub proof fn lemma_no_inverse(a: int, m: int, e: int)
    requires
        m >= 1,
        gcd_nat(abs(a), m as nat) != 1,
    ensures
        (a * e) % m != 1int % m,
{
    if (a * e) % m == 1int % m {
        let g = gcd_nat(abs(a), m as nat) as int;
        lemma_gcd_bound(abs(a), m as nat);
        assert(g >= 1);
        lemma_gcd_divides(abs(a), m as nat);
        // g divides a (whatever the sign of a)
        let ka = choose|k: int| abs(a) as int == #[trigger] (g * k);
        if a < 0 {
            assert(a == g * (-ka)) by (nonlinear_arith)
                requires
                    abs(a) as int == g * ka,
                    a < 0,
                    abs(a) == -a,
            ;
        }
        // 1 is a linear combination of a and m; g divides it
        lemma_fundamental_div_mod(a * e, m);
        let q = (a * e) / m;
        lemma_fundamental_div_mod(1int, m);
        let q1 = 1int / m;
        assert(a * e + m * (q1 - q) == 1) by (nonlinear_arith)
            requires
                a * e == m * q + (a * e) % m,
                1int == m * q1 + 1int % m,
                (a * e) % m == 1int % m,
        ;
        lemma_divides_linear(g, a, m, e, q1 - q);
        assert(divides(g, 1));
        let kg = choose|k: int| 1int == #[trigger] (g * k);
        assert(g == 1) by (nonlinear_arith)
            requires
                1int == g * kg,
                g >= 1,
        ;
    }
}

} // verus!
