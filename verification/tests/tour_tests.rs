use tsp_brute::perm::{permute, Recorder};
use tsp_brute::tour::{BestTourTracker, Point};

fn point(x: f32, y: f32) -> Point {
    Point::new(x.to_bits(), y.to_bits())
}

fn coords(p: &Point) -> (f32, f32) {
    (f32::from_bits(p.x), f32::from_bits(p.y))
}

fn distance(a: &Point, b: &Point) -> f32 {
    let (ax, ay) = coords(a);
    let (bx, by) = coords(b);
    let dx = ax - bx;
    let dy = ay - by;
    (dx * dx + dy * dy).sqrt()
}

/// The closed-loop tour length of a route, as the solver computes it:
/// consecutive edges in order, then the edge from the last point back to the
/// first.
fn total_distance(route: &[Point]) -> f32 {
    let mut total = 0.0f32;
    for ab in route.windows(2) {
        total += distance(&ab[0], &ab[1]);
    }
    total += distance(route.first().unwrap(), route.last().unwrap());
    total
}

/// Enumerates every ordering of `points` and feeds each with its total to a
/// fresh tracker, returning it.
fn solve(points: Vec<Point>) -> BestTourTracker {
    let mut rec = Recorder::new();
    permute(points, &mut rec);
    let mut tracker = BestTourTracker::new();
    for route in &rec.seen {
        tracker.on_permutation(route, total_distance(route).to_bits());
    }
    tracker
}

/// The four corners of the unit square have a best closed tour of length 8:
/// the perimeter, avoiding both diagonals.
#[test]
fn best_tour_unit_square() {
    let corners = vec![
        point(-1.0, -1.0),
        point(-1.0, 1.0),
        point(1.0, -1.0),
        point(1.0, 1.0),
    ];
    let tracker = solve(corners);
    assert_eq!(f32::from_bits(tracker.smallest_distance_bits()), 8.0);

    // Read cyclically in either direction, the route follows the perimeter:
    // every edge has length 2, so no edge is a diagonal.
    let route = tracker.smallest_route();
    assert_eq!(route.len(), 4);
    for i in 0..4 {
        let step = distance(&route[i], &route[(i + 1) % 4]);
        assert_eq!(step, 2.0);
    }
}

/// An exact tie keeps the first-found route.
#[test]
fn tie_keeps_first_found() {
    let first = vec![point(0.0, 0.0), point(3.0, 4.0)];
    let second = vec![point(3.0, 4.0), point(0.0, 0.0)];
    let total = total_distance(&first).to_bits();
    assert_eq!(total, total_distance(&second).to_bits());

    let mut tracker = BestTourTracker::new();
    tracker.on_permutation(&first, total);
    tracker.on_permutation(&second, total);
    assert_eq!(tracker.smallest_route(), &first);
    assert_eq!(tracker.smallest_distance_bits(), total);
}

/// A single point yields distance 0 and a route of just that point.
#[test]
fn single_point_zero_distance() {
    let p = point(0.25, -3.5);
    let tracker = solve(vec![p]);
    assert_eq!(f32::from_bits(tracker.smallest_distance_bits()), 0.0);
    assert_eq!(tracker.smallest_route(), &vec![p]);
}

/// Two distinct points yield twice their separation — there and back —
/// whichever of the two orderings is evaluated first.
#[test]
fn two_points_doubled_distance() {
    let a = point(0.0, 0.0);
    let b = point(3.0, 4.0);
    let tracker = solve(vec![a, b]);
    assert_eq!(f32::from_bits(tracker.smallest_distance_bits()), 10.0);

    let reversed = solve(vec![b, a]);
    assert_eq!(
        reversed.smallest_distance_bits(),
        tracker.smallest_distance_bits()
    );
}

/// A NaN total can never become the smallest: with only NaN totals the
/// tracker stays at its initial state, infinite distance and empty route.
#[test]
fn nan_totals_never_retained() {
    let route = vec![point(f32::NAN, 0.0), point(1.0, 0.0)];
    let total = total_distance(&route);
    assert!(total.is_nan());

    let mut tracker = BestTourTracker::new();
    tracker.on_permutation(&route, total.to_bits());
    assert_eq!(tracker.smallest_distance_bits(), f32::INFINITY.to_bits());
    assert!(tracker.smallest_route().is_empty());
}

/// A coincident pair of points is legal and contributes zero-length edges.
#[test]
fn coincident_points_zero_edges() {
    let p = point(1.5, 1.5);
    let tracker = solve(vec![p, p]);
    assert_eq!(f32::from_bits(tracker.smallest_distance_bits()), 0.0);
}
