use rdf_rust::histogram::Histogram;
use rdf_rust::periodic::{BoundaryError, PeriodicBox, Point};

const L: i64 = 10_000_000;

fn cube() -> PeriodicBox {
    PeriodicBox::new(L, L, L).unwrap()
}

#[test]
fn single_pair_lands_in_its_shell() {
    let a = vec![Point::new(0, 0, 0)];
    let b = vec![Point::new(1_000_000, 0, 0)];
    let h = Histogram::compute(&a, &b, &cube(), 500_000).unwrap();
    assert_eq!(h.num_bins(), 40);
    assert_eq!(h.bin_width, 500_000);
    for (j, c) in h.counts.iter().enumerate() {
        assert_eq!(*c, if j == 2 { 1 } else { 0 });
    }
}

#[test]
fn bin_count_rounds_up() {
    let b = PeriodicBox::new(L, 7_000_000, 9_000_000).unwrap();
    let h = Histogram::compute(&vec![], &vec![], &b, 3_000_000).unwrap();
    assert_eq!(h.num_bins(), 5);
    assert!(h.counts.iter().all(|c| *c == 0));
}

#[test]
fn shell_volumes_grow_and_fill_the_ball() {
    let h = Histogram::compute(&vec![], &vec![], &cube(), 500_000).unwrap();
    let v = h.shell_volumes();
    assert_eq!(v.len(), 40);
    assert_eq!(&v[..4], &[1, 7, 19, 37]);
    for j in 1..v.len() {
        assert!(v[j - 1] < v[j]);
    }
    assert_eq!(v.iter().sum::<u128>(), 40 * 40 * 40);
    assert_eq!(Histogram::shell_units(9), 1000 - 729);
}

#[test]
fn counts_add_up_to_all_pairs() {
    let a = vec![Point::new(0, 0, 0), Point::new(4_000_000, 1_000_000, -2_000_000), Point::new(-3_000_000, 0, 0)];
    let b = vec![
        Point::new(1_000_000, 0, 0),
        Point::new(-4_900_000, 4_900_000, 0),
        Point::new(2_500_000, -2_500_000, 2_500_000),
        Point::new(9_000_000, 0, 0),
    ];
    let h = Histogram::compute(&a, &b, &cube(), 250_000).unwrap();
    assert_eq!(h.counts.iter().sum::<u64>(), 12);
}

#[test]
fn wrapped_pair_counts_at_short_range() {
    let a = vec![Point::new(4_800_000, 0, 0)];
    let b = vec![Point::new(-4_800_000, 0, 0)];
    let h = Histogram::compute(&a, &b, &cube(), 100_000).unwrap();
    assert_eq!(h.counts[4], 1);
    assert_eq!(h.counts.iter().sum::<u64>(), 1);
}

#[test]
fn compute_twice_gives_the_same_result() {
    let a = vec![Point::new(0, 0, 0), Point::new(1_000_000, 2_000_000, 3_000_000)];
    let b = vec![Point::new(-1_000_000, -2_000_000, -3_000_000)];
    let h1 = Histogram::compute(&a, &b, &cube(), 100_000).unwrap();
    let h2 = Histogram::compute(&a, &b, &cube(), 100_000).unwrap();
    assert_eq!(h1.counts, h2.counts);
    assert_eq!(h1.bin_width, h2.bin_width);
    assert_eq!(a[1], Point::new(1_000_000, 2_000_000, 3_000_000));
}

#[test]
fn displacement_too_large_fails() {
    let a = vec![Point::new(0, 0, 0)];
    let b = vec![Point::new(16_000_000, 0, 0)];
    assert_eq!(
        Histogram::compute(&a, &b, &cube(), 500_000).err(),
        Some(BoundaryError::DisplacementOutOfRange)
    );
}

#[test]
fn distance_past_last_bin_fails() {
    let flat = PeriodicBox::new(L, L, 1_000_000).unwrap();
    let a = vec![Point::new(0, 0, 0)];
    let b = vec![Point::new(4_000_000, 0, 0)];
    assert_eq!(
        Histogram::compute(&a, &b, &flat, 1_000_000).err(),
        Some(BoundaryError::BinOutOfRange)
    );
}

#[test]
fn first_failing_pair_decides_the_error() {
    let flat = PeriodicBox::new(L, L, 1_000_000).unwrap();
    let a = vec![Point::new(0, 0, 0)];
    let b = vec![Point::new(4_000_000, 0, 0), Point::new(0, 16_000_000, 0)];
    assert_eq!(
        Histogram::compute(&a, &b, &flat, 1_000_000).err(),
        Some(BoundaryError::BinOutOfRange)
    );
    let b2 = vec![Point::new(0, 16_000_000, 0), Point::new(4_000_000, 0, 0)];
    assert_eq!(
        Histogram::compute(&a, &b2, &flat, 1_000_000).err(),
        Some(BoundaryError::DisplacementOutOfRange)
    );
}
