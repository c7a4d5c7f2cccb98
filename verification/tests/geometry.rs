use creature_creator::geometry::{Point3, Vector3};

#[test]
fn distance_squared_is_the_sum_of_squares() {
    let a = Point3::new(1, 2, 3);
    let b = Point3::new(4, -2, 15);
    assert_eq!(a.distance_squared(&b), 9 + 16 + 144);
    assert_eq!(b.distance_squared(&a), 169);
    assert_eq!(a.distance_squared(&a), 0);
}

#[test]
fn distance_squared_spans_the_whole_lattice() {
    let low = Point3::new(i32::MIN, i32::MIN, i32::MIN);
    let high = Point3::new(i32::MAX, i32::MAX, i32::MAX);
    let side: u128 = 0xFFFF_FFFF;
    assert_eq!(low.distance_squared(&high), 3 * side * side);
}

#[test]
fn is_within_includes_the_rim() {
    let origin = Point3::new(0, 0, 0);
    let on_rim = Point3::new(3, 4, 0);
    assert!(on_rim.is_within(&origin, 5));
    assert!(!on_rim.is_within(&origin, 4));
    assert!(Point3::new(3, 4, 1).is_within(&origin, 6));
    assert!(!Point3::new(3, 4, 1).is_within(&origin, 5));
    assert!(origin.is_within(&origin, 0));
}

#[test]
fn magnitude_squared_of_a_vector() {
    assert_eq!(Vector3::new(2, -3, 6).magnitude_squared(), 49);
    assert_eq!(Vector3::zero().magnitude_squared(), 0);
    let longest = Vector3::new(i32::MIN, i32::MIN, i32::MIN);
    let side: u128 = 0x8000_0000;
    assert_eq!(longest.magnitude_squared(), 3 * side * side);
}
