use native_math::is_perfect;
use native_math::perfect_numbers;

#[test]
fn test_perfect_numbers() {
    let numbers = perfect_numbers(100);
    assert_eq!(numbers, vec![6, 28])
}

#[test]
fn test_perfect_numbers_huge() {
    let numbers = perfect_numbers(33550336);
    assert_eq!(numbers, vec![6, 28, 496, 8128, 33550336])
}

#[test]
fn test_perfect_numbers_below_two() {
    assert_eq!(perfect_numbers(0), Vec::<i32>::new());
    assert_eq!(perfect_numbers(1), Vec::<i32>::new());
}

#[test]
fn test_perfect_numbers_negative_bound() {
    assert_eq!(perfect_numbers(-40), Vec::<i32>::new());
}

#[test]
fn test_perfect_numbers_six() {
    assert_eq!(perfect_numbers(6), vec![6]);
}

#[test]
fn test_perfect_numbers_bound_is_inclusive() {
    assert_eq!(perfect_numbers(27), vec![6]);
    assert_eq!(perfect_numbers(28), vec![6, 28]);
}

#[test]
fn test_is_perfect_known_values() {
    assert!(is_perfect(6));
    assert!(is_perfect(28));
    assert!(is_perfect(496));
    assert!(is_perfect(8128));
}

#[test]
fn test_is_perfect_rejects_others() {
    assert!(!is_perfect(2));
    assert!(!is_perfect(4));
    assert!(!is_perfect(10));
    assert!(!is_perfect(12));
    assert!(!is_perfect(27));
    assert!(!is_perfect(100));
    assert!(!is_perfect(8127));
    assert!(!is_perfect(8129));
}
