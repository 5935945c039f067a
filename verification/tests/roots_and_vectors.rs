use snake_chain::{isqrt, Vector};

#[test]
fn isqrt_of_small_numbers() {
    assert_eq!(isqrt(0), 0);
    assert_eq!(isqrt(1), 1);
    assert_eq!(isqrt(2), 1);
    assert_eq!(isqrt(3), 1);
    assert_eq!(isqrt(4), 2);
    assert_eq!(isqrt(15), 3);
    assert_eq!(isqrt(16), 4);
    assert_eq!(isqrt(17), 4);
    assert_eq!(isqrt(99), 9);
    assert_eq!(isqrt(100), 10);
}

#[test]
fn isqrt_of_large_numbers() {
    assert_eq!(isqrt(u128::MAX), u64::MAX);
    assert_eq!(isqrt(1u128 << 126), 1u64 << 63);
    assert_eq!(isqrt((1u128 << 126) - 1), (1u64 << 63) - 1);
    let side: u128 = 1_000_000_007;
    assert_eq!(isqrt(side * side), 1_000_000_007);
    assert_eq!(isqrt(side * side - 1), 1_000_000_006);
    assert_eq!(isqrt(side * side + 2 * side), 1_000_000_007);
}

#[test]
fn isqrt_is_the_floor_on_a_range() {
    let mut n: u128 = 0;
    while n < 5000 {
        let s: u128 = isqrt(n) as u128;
        assert!(s * s <= n);
        assert!(n < (s + 1) * (s + 1));
        n += 1;
    }
}

#[test]
fn vector_sum_and_difference() {
    let a = Vector::new(3, -4);
    let b = Vector::new(-10, 7);
    assert_eq!(a.plus(&b), Vector::new(-7, 3));
    let top: i64 = 0x3fff_ffff_ffff_ffff;
    assert_eq!(
        Vector::new(top, -top).plus(&Vector::new(top, -top)),
        Vector::new(i64::MAX - 1, -i64::MAX + 1)
    );
    assert_eq!(
        Vector::new(top, -top).minus(&Vector::new(-top, top)),
        Vector::new(i64::MAX - 1, -i64::MAX + 1)
    );
    assert_eq!(a.minus(&b), Vector::new(13, -11));
    assert_eq!(Vector::zero(), Vector::new(0, 0));
    assert!(Vector::zero().is_zero());
    assert!(!a.is_zero());
    assert!(!Vector::new(0, 1).is_zero());
}

#[test]
fn vector_products() {
    let a = Vector::new(3, -4);
    let b = Vector::new(-10, 7);
    assert_eq!(a.dot(&b), -58);
    assert_eq!(a.cross(&b), -19);
    assert_eq!(b.cross(&a), 19);
    assert_eq!(a.norm_sq(), 25);
    assert_eq!(Vector::new(1, 0).cross(&Vector::new(0, 1)), 1);
}

#[test]
fn vector_products_at_the_largest_coordinates() {
    let top: i64 = 0x3fff_ffff_ffff_ffff;
    let a = Vector::new(top, -top);
    assert_eq!(a.norm_sq(), 2 * (top as u128) * (top as u128));
    assert_eq!(a.dot(&a), 2 * (top as i128) * (top as i128));
    assert_eq!(a.cross(&Vector::new(top, top)), 2 * (top as i128) * (top as i128));
}

#[test]
fn vector_within_a_bound() {
    assert!(Vector::new(5, -5).is_within(5));
    assert!(!Vector::new(6, 0).is_within(5));
    assert!(!Vector::new(0, -6).is_within(5));
    assert!(Vector::new(0, 0).is_within(0));
    assert!(!Vector::new(0, 0).is_within(-1));
    assert!(!Vector::new(0, 0).is_within(i64::MIN));
    assert!(Vector::new(i64::MAX, -i64::MAX).is_within(i64::MAX));
    assert!(!Vector::new(i64::MIN, 0).is_within(i64::MAX));
}
