#[test]
fn test_add_small_values() {
    assert_eq!(native_math::add(2, 2), 4);
    assert_eq!(native_math::add(-3, 10), 7);
    assert_eq!(native_math::add(-3, -4), -7);
}

#[test]
fn test_add_commutative_samples() {
    let pairs = [(1, 2), (-5, 9), (i32::MAX, 17), (i32::MIN, -1), (0, i32::MAX)];
    for (a, b) in pairs {
        assert_eq!(native_math::add(a, b), native_math::add(b, a));
    }
}

#[test]
fn test_add_identity_samples() {
    for a in [0, 1, -1, 42, i32::MAX, i32::MIN] {
        assert_eq!(native_math::add(a, 0), a);
    }
}

#[test]
fn test_add_wraps_on_overflow() {
    assert_eq!(native_math::add(i32::MAX, 1), i32::MIN);
    assert_eq!(native_math::add(i32::MIN, -1), i32::MAX);
    assert_eq!(native_math::add(i32::MAX, i32::MAX), -2);
}
