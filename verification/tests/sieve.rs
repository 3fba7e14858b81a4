use quadratic_sieve::quadratic_sieve::div_while;
use quadratic_sieve::quadratic_sieve::factor_base;
use quadratic_sieve::quadratic_sieve::factor_over;
use quadratic_sieve::quadratic_sieve::is_prime;
use quadratic_sieve::quadratic_sieve::is_quadratic_residue;
use quadratic_sieve::quadratic_sieve::legendre;
use quadratic_sieve::quadratic_sieve::legendre_primes;
use quadratic_sieve::quadratic_sieve::primes;
use quadratic_sieve::quadratic_sieve::primes_from;
use quadratic_sieve::quadratic_sieve::qs;
use quadratic_sieve::quadratic_sieve::smooth;
use quadratic_sieve::quadratic_sieve::sqrt_mod;
use quadratic_sieve::quadratic_sieve::QsError;
use quadratic_sieve::quadratic_sieve::Squaring;

#[test]
fn primality_by_trial_division() {
    assert!(!is_prime(0));
    assert!(!is_prime(1));
    assert!(is_prime(2));
    assert!(is_prime(3));
    assert!(!is_prime(4));
    assert!(is_prime(97));
    assert!(!is_prime(8051));
    assert!(is_prime(7919));
}

#[test]
fn prime_listing() {
    assert_eq!(primes(20), vec![2, 3, 5, 7, 11, 13, 17, 19]);
    assert_eq!(primes_from(10, 30), vec![11, 13, 17, 19, 23, 29]);
}

#[test]
fn legendre_symbol_values() {
    // 10 is a residue modulo 13 (6 * 6 = 36 = 10), 5 is not
    assert_eq!(legendre(10, 13), 1);
    assert_eq!(legendre(5, 13), 12);
    assert!(is_quadratic_residue(10, 13));
    assert!(!is_quadratic_residue(5, 13));
    assert!(is_quadratic_residue(7, 2));
}

#[test]
fn legendre_prime_listing() {
    // primes below 20 for which 8051 is a quadratic residue
    let ps = legendre_primes(8051, 20);
    for &p in &ps {
        assert!(is_prime(p));
        assert!(is_quadratic_residue(8051, p));
    }
    assert!(ps.contains(&2));
}

#[test]
fn factor_base_takes_first_qualifying_primes() {
    let fb = factor_base(8051, 5);
    assert_eq!(fb.len(), 5);
    for &p in &fb {
        assert!(is_prime(p));
        assert!(is_quadratic_residue(8051, p));
    }
    for w in fb.windows(2) {
        assert!(w[0] < w[1]);
    }
}

#[test]
fn square_roots_modulo_a_prime() {
    // roots of 10 modulo 13 are 6 and 7
    let r = sqrt_mod(10, 13).unwrap();
    assert!(r == [6, 7] || r == [7, 6]);
    assert_eq!((r[0] * r[0]) % 13, 10);
    assert_eq!((r[1] * r[1]) % 13, 10);
    assert_eq!((r[0] + r[1]) % 13, 0);
    // a non-residue has no root
    assert_eq!(sqrt_mod(5, 13), None);
    // the double root modulo two
    assert_eq!(sqrt_mod(7, 2), Some([1, 1]));
    assert_eq!(sqrt_mod(6, 2), Some([0, 0]));
    // a prime with p = 1 mod 4 takes the general path
    let r17 = sqrt_mod(13, 17).unwrap();
    assert_eq!((r17[0] * r17[0]) % 17, 13);
    assert_eq!((r17[1] * r17[1]) % 17, 13);
}

#[test]
fn squaring_steps_modulo() {
    let mut s = Squaring::new(3, 11);
    assert_eq!(s.step(), 9);
    assert_eq!(s.step(), 4); // 81 = 4 mod 11
}

#[test]
fn smooth_relations_for_8051() {
    let (xs, ys, fb) = smooth(8051, 5, 50);
    assert_eq!(fb.len(), 5);
    assert!(xs.len() > fb.len());
    for t in 0..xs.len() {
        assert_eq!(ys[t], xs[t] * xs[t] - 8051);
        // each y factors completely over the base
        let mut v = ys[t];
        for &p in &fb {
            while v % p == 0 {
                v /= p;
            }
        }
        assert_eq!(v.abs(), 1);
    }
}

#[test]
fn factor_over_records_exponents() {
    let (res, fact) = factor_over(&72, &vec![2, 3]);
    assert_eq!(res, 1);
    assert_eq!(fact, vec![(2, 3), (3, 2)]);
    let (res2, fact2) = factor_over(&50, &vec![2, 3]);
    assert_eq!(res2, 25);
    assert_eq!(fact2, vec![(2, 1), (3, 0)]);
    // negative values factor with the sign carried by the residual
    let (res3, fact3) = factor_over(&-72, &vec![2, 3]);
    assert_eq!(res3, -1);
    assert_eq!(fact3, vec![(2, 3), (3, 2)]);
}

#[test]
fn div_while_strips_factors() {
    assert_eq!(div_while(40, 2), (5, 3));
    assert_eq!(div_while(7, 2), (7, 0));
    assert_eq!(div_while(-40, 2), (-5, 3));
    assert_eq!(div_while(-7, 3), (-7, 0));
}

#[test]
fn qs_factors_8051() {
    let r = qs(8051, 5, 50).unwrap();
    assert!(r == (83, 97) || r == (97, 83));
}

#[test]
fn qs_factors_77() {
    let (a, b) = qs(77, 5, 30).unwrap();
    assert!((a, b) == (7, 11) || (a, b) == (11, 7));
}

#[test]
fn qs_factors_15() {
    // base {2, 7, 11, 17}; the interval reaches x = 41 with
    // 41 * 41 - 15 = 2 * 7 * 7 * 17, the fifth smooth relation
    let (a, b) = qs(15, 4, 40).unwrap();
    assert!((a, b) == (3, 5) || (a, b) == (5, 3));
}

#[test]
fn qs_fails_on_a_prime() {
    // no nontrivial factor exists, and (1, 97) is never returned
    let r = qs(97, 3, 60);
    assert_eq!(r, Err(QsError::NoNontrivialFactor));
}

#[test]
fn qs_reports_insufficient_relations() {
    assert_eq!(qs(8051, 5, 1), Err(QsError::InsufficientRelations));
}
