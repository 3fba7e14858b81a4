use quadratic_sieve::complex::Complex;
use quadratic_sieve::conjugate::Conjugate;
use quadratic_sieve::identity::One;
use quadratic_sieve::identity::Zero;
use quadratic_sieve::integers::ExtEuclid;
use quadratic_sieve::integers::GCDEuclid;
use quadratic_sieve::integers::Integer;
use quadratic_sieve::integers::Inverse;
use quadratic_sieve::integers::GCD;
use quadratic_sieve::integers::LCM;
use quadratic_sieve::primes::PrimeBank;
use quadratic_sieve::rings::inverse;
use quadratic_sieve::rings::invertible;
use quadratic_sieve::rings::order;
use quadratic_sieve::rings::Ring;
use quadratic_sieve::rings::RingElement;
use quadratic_sieve::rings::RingType;
use quadratic_sieve::traits::Equivalent;
use quadratic_sieve::traits::Pow;
use quadratic_sieve::traits::Rem;

#[test]
fn gcd_is_symmetric_and_absolute() {
    let a: i64 = 23 * 8;
    let b: i64 = 23 * 9;
    assert_eq!(a.gcd(b), 23);
    assert_eq!(b.gcd(a), 23);
    assert_eq!((12i64).gcd(18), (18i64).gcd(12));
    assert_eq!((5i64).gcd(0), 5);
    assert_eq!((-7i64).gcd(0), 7);
    assert_eq!((0i64).gcd(-9), 9);
    assert_eq!((-12i64).gcd(-18), 6);
}

#[test]
fn extended_euclid_bezout() {
    let [d, x, y] = (240i64).ext_euclid(46);
    assert_eq!(d, 2);
    assert_eq!(240 * x + 46 * y, 2);
    assert_eq!((240i64).gcd_euclid(46), 2);
    let [d2, x2, y2] = (-240i64).ext_euclid(46);
    assert_eq!(d2, 2);
    assert_eq!(-240 * x2 + 46 * y2, 2);
}

#[test]
fn lcm_with_zero_is_zero() {
    assert_eq!((4i64).lcm(6), 12);
    assert_eq!((0i64).lcm(7), 0);
    assert_eq!((7i64).lcm(0), 0);
    assert_eq!((-4i64).lcm(6), -12);
}

#[test]
fn modular_inverse_when_coprime() {
    assert_eq!((3i64).inv(7), Some(5));
    assert_eq!((4i64).inv(6), None);
    assert_eq!((1i64).inv(1), Some(0));
}

#[test]
fn pow_mod_of_zero_exponent_is_one() {
    // a^0 = 1 mod m for every a and m > 1
    assert_eq!((5i64).pow_mod(0, 7), 1);
    assert_eq!((-5i64).pow_mod(0, 7), 1);
    assert_eq!((0i64).pow_mod(0, 2), 1);
    assert_eq!((123456i64).pow_mod(0, 997), 1);
}

#[test]
fn pow_mod_values() {
    assert_eq!((3i64).pow_mod(4, 5), 1); // 81 = 1 mod 5
    assert_eq!((2i64).pow_mod(10, 1000), 24);
    assert_eq!((-2i64).pow_mod(3, 7), 6); // (-8) = 6 mod 7
}

#[test]
fn integer_powers_and_squares() {
    assert_eq!((3i64).pow(4u32), 81);
    assert_eq!((-2i64).pow(3u32), -8);
    assert_eq!(Integer::squared(&7i64), 49);
    assert_eq!(Integer::abs(&-9i64), 9);
}

#[test]
fn remainders_and_equivalence() {
    assert_eq!(Rem::rem(-7i64, 2), -1);
    assert_eq!(Rem::rem(7i64, 2), 1);
    assert_eq!(Rem::rem_euclid(-7i64, 3), 2);
    assert!((10i64).equivalent(1, 3));
    assert!(!(10i64).equivalent(2, 3));
    assert_eq!(Pow::pow(&3i64, 3), 27);
    assert_eq!(Pow::squared(&5i64), 25);
}

#[test]
fn prime_bank_grows_on_demand() {
    let mut bank = PrimeBank::new(10);
    assert_eq!(bank.ith_prime(0), Some(2));
    assert_eq!(bank.ith_prime(3), Some(7));
    assert_eq!(bank.ith_prime(25), Some(101)); // needs several extensions
    let known = bank.iter();
    assert_eq!(&known[0..5], &[2, 3, 5, 7, 11]);
    bank.extend();
    bank.extend_until(30);
    assert_eq!(bank.ith_prime(29), Some(113));
}

#[test]
fn ring_element_inverse_and_order() {
    assert!(invertible(3, 7));
    assert!(!invertible(4, 6));
    assert_eq!(inverse(3, 7), Some(5));
    assert_eq!(inverse(4, 6), None);
    assert_eq!(order(2, 7), Some(3)); // 8 = 1 mod 7
    assert_eq!(order(3, 7), Some(6));
    let e = RingElement::new(3, 7);
    assert_eq!(e.value, 3);
    assert_eq!(e.base, 7);
    assert!(e.invertible());
    assert_eq!(*e.inverse(), Some(5));
    assert_eq!(*e.order(), Some(6));
}

#[test]
fn ring_exploration() {
    let r7 = Ring::new(7);
    assert_eq!(r7.len(), 7);
    // the full ring lists one element per residue, so the count matches the
    // base even though zero is not a unit
    assert!(r7.is_multiplicative_group());
    assert_eq!(r7.order(), Some(7));
    let u8r = Ring::multiplicative_group(8);
    assert_eq!(u8r.len(), 4); // units modulo 8: 1, 3, 5, 7
    let els = u8r.iter();
    let values: Vec<i64> = els.iter().map(|e| e.value).collect();
    assert_eq!(values, vec![1, 3, 5, 7]);
    let ty = RingType::from_elements(&els);
    assert!(matches!(ty, RingType::Multiplicative));
    // the full ring of a prime base is multiplicative, of a composite not
    assert!(matches!(Ring::new(7).ring_type(), RingType::Multiplicative));
    assert!(matches!(Ring::new(6).ring_type(), RingType::Group));
}

#[test]
fn complex_and_conjugation() {
    let c = Complex::new(3i64, 4i64);
    assert_eq!(c.0, 3);
    assert_eq!(c.1, 4);
    let cc = c.conj();
    assert_eq!(cc.0, 3);
    assert_eq!(cc.1, -4);
    assert_eq!((5u32).conj(), 5);
}

#[test]
fn identity_elements() {
    assert_eq!(<i64 as Zero>::zero(), 0);
    assert_eq!(<i64 as One>::one(), 1);
    assert_eq!(<bool as Zero>::zero(), false);
    assert_eq!(<bool as One>::one(), true);
    let z: quadratic_sieve::congruence_class::CongruenceClass<5> =
        <quadratic_sieve::congruence_class::CongruenceClass<5> as Zero>::zero();
    assert_eq!(z, quadratic_sieve::congruence_class::CongruenceClass::<5>::new(0));
    let o: quadratic_sieve::congruence_class::CongruenceClass<5> =
        <quadratic_sieve::quotient_group::QuotientGroup<5> as One>::one();
    assert_eq!(o, quadratic_sieve::congruence_class::CongruenceClass::<5>::new(1));
    let q: quadratic_sieve::congruence_class::CongruenceClass<5> =
        <quadratic_sieve::quotient_group::QuotientRing<5> as Zero>::zero();
    assert_eq!(q, quadratic_sieve::congruence_class::CongruenceClass::<5>::new(0));
}
