use rdf_rust::periodic::{PeriodicBox, Point};
use rdf_rust::trajectory::{
    parse_frame_header, parse_header, parse_record, Advance, TrajectoryError, TrajectoryReader,
    GROUP_A_TAG, GROUP_B_TAG,
};

fn lines(v: &[&str]) -> Vec<String> {
    v.iter().map(|s| s.to_string()).collect()
}

#[test]
fn one_frame_splits_into_groups() {
    let mut r = TrajectoryReader::new("T 2 X 10.0 10.0 10.0").unwrap();
    assert_eq!(r.atom_count, 2);
    assert_eq!(r.cell, PeriodicBox { x: 10_000_000, y: 10_000_000, z: 10_000_000 });
    let frame = lines(&["S 0", "A 1.0 2.0 3.0 1", "A -1.0 -2.0 -3.0 2"]);
    assert_eq!(r.advance(&frame), Ok(Advance::Frame));
    assert_eq!(r.time_step, 0);
    let (a, b) = r.partition(GROUP_A_TAG, GROUP_B_TAG);
    assert_eq!(a, vec![Point::new(1_000_000, 2_000_000, 3_000_000)]);
    assert_eq!(b, vec![Point::new(-1_000_000, -2_000_000, -3_000_000)]);
}

#[test]
fn short_frame_is_a_format_error() {
    let mut r = TrajectoryReader::new("T 2 X 10.0 10.0 10.0").unwrap();
    let frame = lines(&["S 0", "A 1.0 2.0 3.0 1"]);
    assert_eq!(r.advance(&frame), Err(TrajectoryError::TruncatedFrame));
    assert_eq!(r.positions, vec![Point::new(0, 0, 0); 2]);
    assert_eq!(r.tags, vec![0, 0]);
}

#[test]
fn no_lines_left_ends_the_stream() {
    let mut r = TrajectoryReader::new("T 1 X 5 5 5").unwrap();
    assert_eq!(r.advance(&[]), Ok(Advance::EndOfStream));
}

#[test]
fn frames_replace_each_other() {
    let mut r = TrajectoryReader::new("T 3 X 5 5 5 extra").unwrap();
    let all = lines(&[
        "S 10", "A 0 0 0 1", "A 1 0 0 2", "A 0 1 0 3",
        "S 20", "A 0.5 0 0 2", "A 1.5 0 0 2", "A 0 1.5 0 1",
    ]);
    assert_eq!(r.advance(&all), Ok(Advance::Frame));
    assert_eq!(r.time_step, 10);
    assert_eq!(r.advance(&all[4..]), Ok(Advance::Frame));
    assert_eq!(r.time_step, 20);
    assert_eq!(r.tags, vec![2, 2, 1]);
    assert_eq!(r.group(GROUP_B_TAG), vec![Point::new(500_000, 0, 0), Point::new(1_500_000, 0, 0)]);
    assert_eq!(r.group(GROUP_A_TAG), vec![Point::new(0, 1_500_000, 0)]);
    assert_eq!(r.group(3), vec![]);
    assert_eq!(r.frame_len(), Some(4));
}

#[test]
fn bad_record_leaves_the_frame_as_it_was() {
    let mut r = TrajectoryReader::new("T 2 X 10 10 10").unwrap();
    assert_eq!(r.advance(&lines(&["S 1", "A 1 1 1 1", "A 2 2 2 2"])), Ok(Advance::Frame));
    assert_eq!(r.advance(&lines(&["S 2", "A 3 3 3 1", "A 4 4 x 2"])), Err(TrajectoryError::InvalidNumber));
    assert_eq!(r.time_step, 1);
    assert_eq!(r.positions[1], Point::new(2_000_000, 2_000_000, 2_000_000));
    assert_eq!(r.advance(&lines(&["S 2", "A 3 3 3", "A 4 4 4 2"])), Err(TrajectoryError::MissingField));
    assert_eq!(r.advance(&lines(&["S", "A 3 3 3 1", "A 4 4 4 2"])), Err(TrajectoryError::MissingField));
    assert_eq!(r.advance(&lines(&["S two", "A 3 3 3 1", "A 4 4 4 2"])), Err(TrajectoryError::InvalidNumber));
}

#[test]
fn header_errors() {
    assert_eq!(parse_header("T 2 X 10.0 10.0"), Err(TrajectoryError::MissingField));
    assert_eq!(parse_header("T two X 10.0 10.0 10.0"), Err(TrajectoryError::InvalidNumber));
    assert_eq!(parse_header("T 2 X 10.0 ten 10.0"), Err(TrajectoryError::InvalidNumber));
    assert_eq!(parse_header("T -2 X 10.0 10.0 10.0"), Err(TrajectoryError::InvalidNumber));
    assert_eq!(parse_header("T 2 X 10.0 0 10.0"), Err(TrajectoryError::InvalidBox));
    assert_eq!(parse_header("T 2 X 10.0 10.0 -1"), Err(TrajectoryError::InvalidBox));
    assert!(TrajectoryReader::new("").is_err());
    assert_eq!(
        parse_header("T 7 X 1.5 2.5 3.25"),
        Ok((7, PeriodicBox { x: 1_500_000, y: 2_500_000, z: 3_250_000 }))
    );
}

#[test]
fn line_parsers() {
    assert_eq!(parse_frame_header("timestep 123 4 5"), Ok(123));
    assert_eq!(
        parse_record("O 1.25 -0.5 7 2 ignored"),
        Ok((Point::new(1_250_000, -500_000, 7_000_000), 2))
    );
    assert_eq!(parse_record("O 1.25 -0.5 7 2.0"), Err(TrajectoryError::InvalidNumber));
}
