use rdf_rust::periodic::{BoundaryError, PeriodicBox, Point};

const L: i64 = 10_000_000;

#[test]
fn minimum_image_keeps_short_displacements() {
    for d in [0, 1, -1, 4_999_999, -4_999_999, 5_000_000, -5_000_000] {
        assert_eq!(PeriodicBox::periodic(d, L), Ok(d));
    }
}

#[test]
fn minimum_image_wraps_once() {
    assert_eq!(PeriodicBox::periodic(5_000_001, L), Ok(-4_999_999));
    assert_eq!(PeriodicBox::periodic(-5_000_001, L), Ok(4_999_999));
    assert_eq!(PeriodicBox::periodic(8_000_000, L), Ok(-2_000_000));
    assert_eq!(PeriodicBox::periodic(15_000_000, L), Ok(5_000_000));
    assert_eq!(PeriodicBox::periodic(-15_000_000, L), Ok(-5_000_000));
    for d in [5_000_001i64, 7_000_000, 12_345_678, 15_000_000] {
        for s in [1i64, -1] {
            let r = PeriodicBox::periodic(s * d, L).unwrap();
            assert!(2 * r.abs() <= L);
            assert_eq!(r, s * d - s * L);
        }
    }
}

#[test]
fn minimum_image_fails_past_one_and_a_half_extents() {
    assert_eq!(PeriodicBox::periodic(15_000_001, L), Err(BoundaryError::DisplacementOutOfRange));
    assert_eq!(PeriodicBox::periodic(-15_000_001, L), Err(BoundaryError::DisplacementOutOfRange));
    assert_eq!(PeriodicBox::periodic(20_000_000, L), Err(BoundaryError::DisplacementOutOfRange));
}

#[test]
fn box_requires_positive_extents() {
    assert!(PeriodicBox::new(0, 1, 1).is_none());
    assert!(PeriodicBox::new(1, -1, 1).is_none());
    assert!(PeriodicBox::new(1, 1, 1_000_000_000_000_001).is_none());
    assert_eq!(PeriodicBox::new(1, 2, 3), Some(PeriodicBox { x: 1, y: 2, z: 3 }));
}

#[test]
fn correction_is_per_axis() {
    let b = PeriodicBox::new(L, 2 * L, 4 * L).unwrap();
    let d = Point::new(6_000_000, 6_000_000, -21_000_000);
    assert_eq!(b.periodic_correct(d), Ok(Point::new(-4_000_000, 6_000_000, 19_000_000)));
    let far = Point::new(0, 31_000_000, 0);
    assert_eq!(b.periodic_correct(far), Err(BoundaryError::DisplacementOutOfRange));
}

#[test]
fn in_box_is_strict_on_every_axis() {
    let b = PeriodicBox::new(L, L, L).unwrap();
    assert!(b.check_in_box(Point::new(4_999_999, -4_999_999, 0)));
    assert!(!b.check_in_box(Point::new(5_000_000, 0, 0)));
    assert!(!b.check_in_box(Point::new(0, 0, -5_000_000)));
}

#[test]
fn squared_distance_uses_minimum_image() {
    let b = PeriodicBox::new(L, L, L).unwrap();
    let a = Point::new(1_000_000, 0, 0);
    let c = Point::new(9_000_000, 0, 0);
    assert_eq!(b.distance_sq(&a, &c), Ok(2_000_000u128 * 2_000_000));
    let p = Point::new(0, 3_000_000, 0);
    let q = Point::new(0, 0, 4_000_000);
    assert_eq!(b.distance_sq(&p, &q), Ok(5_000_000u128 * 5_000_000));
}
