use tsp_brute::grid::{run, run_inner};
use tsp_brute::perm::Recorder;
use tsp_brute::tour::Point;

/// With no slots left to fill, the driver hands the buffer to the visitor
/// exactly once, as it stands.
#[test]
fn zero_count_visits_buffer_once() {
    let mut positions = vec![
        Point::new(1.0f32.to_bits(), (-0.5f32).to_bits()),
        Point::new(0.25f32.to_bits(), 0.75f32.to_bits()),
    ];
    let expected = positions.clone();
    let mut rec = Recorder::new();
    run_inner(0, &mut positions, &mut rec);
    assert_eq!(rec.seen, vec![expected.clone()]);
    assert_eq!(positions, expected);
}

/// Sweeping zero points solves the one empty configuration.
#[test]
fn zero_points_single_empty_configuration() {
    let mut rec = Recorder::new();
    run(0, &mut rec);
    assert_eq!(rec.seen, vec![Vec::<Point>::new()]);
}
