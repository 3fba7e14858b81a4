use quadratic_sieve::congruence_class::CongruenceClass;

#[test]
fn test_constructor_reduces() {
    assert_eq!(CongruenceClass::<5>::new(10), CongruenceClass::<5>::new(0));
    assert_eq!(CongruenceClass::<10>::new(11), CongruenceClass::<10>::new(1));
    assert_eq!(CongruenceClass::<100>::new(99), CongruenceClass::<100>::new(99));
}

#[test]
fn congruence_class_test_addition() {
    let a = CongruenceClass::<7>::new(5);
    let b = CongruenceClass::<7>::new(6);
    let res = CongruenceClass::<7>::new(4); // 11 = 4 mod 7
    assert_eq!(a.add(b), res);
}

#[test]
fn congruence_class_test_multiplication() {
    let a = CongruenceClass::<7>::new(5);
    let b = CongruenceClass::<7>::new(6);
    let res = CongruenceClass::<7>::new(2); // 30 = 2 mod 7
    assert_eq!(a.mul(b), res);
}

#[test]
fn congruence_class_subtraction_wraps() {
    let a = CongruenceClass::<7>::new(2);
    let b = CongruenceClass::<7>::new(5);
    assert_eq!(a.sub(b), CongruenceClass::<7>::new(4));
}

#[test]
fn congruence_class_division_is_modular() {
    // 3 * 2 = 6 = 1 mod 5, so 1 / 2 = 3
    let one = CongruenceClass::<5>::new(1);
    let two = CongruenceClass::<5>::new(2);
    assert_eq!(one.div(two), CongruenceClass::<5>::new(3));
}

#[test]
fn congruence_class_ith_member() {
    assert_eq!(CongruenceClass::<5>::ith(3), 15);
    assert_eq!(CongruenceClass::<7>::ith(0), 0);
}
