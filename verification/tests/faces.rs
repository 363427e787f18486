use yarpt::geometry::{Aabb, Crossings, Key3};
use yarpt::integrator::{PathAction, PathEvent, PathState};
use yarpt::renderable::{trace_box, BoxFace};

/// A key for a number: the greater number has the greater key.
fn key(x: f64) -> i64 {
    let bits = (x + 0.0).to_bits() as i64;
    if bits < 0 {
        bits ^ i64::MAX
    } else {
        bits
    }
}

fn keys(v: [f64; 3]) -> Key3 {
    Key3 { x: key(v[0]), y: key(v[1]), z: key(v[2]) }
}

/// The number of a key.
fn number(key: i64) -> f64 {
    f64::from_bits((if key < 0 { key ^ i64::MAX } else { key }) as u64)
}

/// The key of a distance; none for a value that is no number.
fn crossing(x: f64) -> Option<i64> {
    if x.is_nan() {
        None
    } else {
        Some(key(x))
    }
}

fn crossings(v: [f64; 3]) -> Crossings {
    Crossings { x: crossing(v[0]), y: crossing(v[1]), z: crossing(v[2]) }
}

/// Fires a ray at the box of the given half extents around the origin: the
/// distances to the planes of the faces are worked out here and handed to the
/// library.
fn fire(half: [f64; 3], origin: [f64; 3], dir: [f64; 3]) -> Option<(f64, BoxFace)> {
    let mut lower = [0.0; 3];
    let mut upper = [0.0; 3];
    for axis in 0..3 {
        let inv = 1.0 / dir[axis];
        lower[axis] = (-half[axis] - origin[axis]) * inv;
        upper[axis] = (half[axis] - origin[axis]) * inv;
    }
    let bounds = Aabb { lo: keys([-half[0], -half[1], -half[2]]), hi: keys(half) };
    trace_box(bounds, keys(origin), crossings(lower), crossings(upper), key(0.0))
        .map(|(distance, face)| (number(distance), face))
}

#[test]
fn keys_keep_the_order_of_numbers() {
    let samples = [f64::NEG_INFINITY, -1e300, -2.5, -1.0, -1e-300, 0.0, 1e-300, 1.0, 2.5, 1e300, f64::INFINITY];
    for pair in samples.windows(2) {
        assert!(key(pair[0]) < key(pair[1]));
    }
    assert_eq!(key(-0.0), key(0.0));
    for x in samples {
        assert_eq!(number(key(x)), x);
    }
}

#[test]
fn a_ray_that_runs_within_the_plane_of_a_face_misses() {
    // The origin lies in the plane y = 1 and the ray does not move along y:
    // the crossing of that plane is no number, that of the plane y = -1 lies
    // infinitely far behind.
    assert_eq!(fire([1.0, 1.0, 1.0], [-4.0, 1.0, 0.0], [1.0, 0.0, 0.0]), None);
}

#[test]
fn a_flat_box_is_hit_by_a_ray_that_runs_within_it() {
    // Neither crossing across y is a number, so the other axes decide.
    let (distance, face) = fire([1.0, 0.0, 1.0], [-4.0, 0.0, 0.0], [1.0, 0.0, 0.0]).unwrap();
    assert_eq!(face, BoxFace::NegX);
    assert!((distance - 3.0).abs() < 1e-12);
}

#[test]
fn a_ray_along_each_axis_enters_by_the_face_it_looks_at() {
    let half = [1.0, 2.0, 3.0];
    let cases = [
        ([5.0, 0.0, 0.0], [-1.0, 0.0, 0.0], BoxFace::PosX, 4.0),
        ([-5.0, 0.0, 0.0], [1.0, 0.0, 0.0], BoxFace::NegX, 4.0),
        ([0.0, 7.0, 0.0], [0.0, -1.0, 0.0], BoxFace::PosY, 5.0),
        ([0.0, -7.0, 0.0], [0.0, 1.0, 0.0], BoxFace::NegY, 5.0),
        ([0.0, 0.0, 9.0], [0.0, 0.0, -1.0], BoxFace::PosZ, 6.0),
        ([0.0, 0.0, -9.0], [0.0, 0.0, 1.0], BoxFace::NegZ, 6.0),
    ];
    for (origin, dir, face, distance) in cases {
        let (found_distance, found_face) = fire(half, origin, dir).expect("the ray hits the box");
        assert_eq!(found_face, face);
        assert!((found_distance - distance).abs() < 1e-12);
    }
}

#[test]
fn a_ray_that_looks_away_or_passes_by_misses() {
    let half = [1.0, 1.0, 1.0];
    assert_eq!(fire(half, [5.0, 0.0, 0.0], [1.0, 0.0, 0.0]), None);
    assert_eq!(fire(half, [5.0, 3.0, 0.0], [-1.0, 0.0, 0.0]), None);
    assert_eq!(fire(half, [0.0, 0.0, -4.0], [0.0, 1.0, 0.0]), None);
}

#[test]
fn a_ray_from_inside_the_box_misses() {
    let half = [1.0, 1.0, 1.0];
    assert_eq!(fire(half, [0.5, 0.0, 0.0], [1.0, 0.0, 0.0]), None);
    assert_eq!(fire(half, [0.0, 0.0, 0.0], [0.0, 0.0, 1.0]), None);
}

#[test]
fn a_slanted_ray_enters_by_the_face_it_crosses_last() {
    let half = [1.0, 1.0, 1.0];
    let (distance, face) = fire(half, [-3.0, -2.0, 0.0], [1.0, 1.0, 0.0]).unwrap();
    assert_eq!(face, BoxFace::NegX);
    assert!((distance - 2.0).abs() < 1e-12);
    let (distance, face) = fire(half, [-2.0, -3.0, 0.0], [1.0, 1.0, 0.0]).unwrap();
    assert_eq!(face, BoxFace::NegY);
    assert!((distance - 2.0).abs() < 1e-12);
}

#[test]
fn the_first_face_in_order_wins_among_equals() {
    let c = |x: i64, y: i64, z: i64| Crossings { x: Some(x), y: Some(y), z: Some(z) };
    assert_eq!(BoxFace::of_entry(4, c(4, 4, 4), c(4, 4, 4)), BoxFace::NegX);
    assert_eq!(BoxFace::of_entry(4, c(9, 4, 4), c(4, 4, 4)), BoxFace::PosX);
    assert_eq!(BoxFace::of_entry(4, c(9, 4, 4), c(9, 4, 4)), BoxFace::NegY);
    assert_eq!(BoxFace::of_entry(4, c(9, 9, 4), c(9, 4, 4)), BoxFace::PosY);
    assert_eq!(BoxFace::of_entry(4, c(9, 9, 4), c(9, 9, 4)), BoxFace::NegZ);
    assert_eq!(BoxFace::of_entry(4, c(9, 9, 9), c(9, 9, 4)), BoxFace::PosZ);
    assert_eq!(BoxFace::of_entry(4, c(9, 9, 9), c(9, 9, 9)), BoxFace::PosZ);
    let none = Crossings { x: None, y: None, z: None };
    assert_eq!(BoxFace::of_entry(4, none, none), BoxFace::PosZ);
    assert_eq!(BoxFace::of_entry(4, none, c(9, 4, 9)), BoxFace::PosY);
}

#[test]
fn a_ray_from_a_corner_cut_diagonally_keeps_the_axis_order() {
    // The ray crosses the planes x = -1 and y = -1 at the same distance.
    let (_, face) = fire([1.0, 1.0, 1.0], [-3.0, -3.0, 0.0], [1.0, 1.0, 0.0]).unwrap();
    assert_eq!(face, BoxFace::NegX);
}

#[test]
fn a_path_ends_with_a_miss() {
    let mut path = PathState::new(8);
    assert!(path.is_alive());
    assert_eq!(path.bounce(PathEvent::Miss), PathAction::Environment);
    assert!(!path.is_alive());
}

#[test]
fn a_path_ends_at_a_light() {
    let mut path = PathState::new(8);
    assert_eq!(path.bounce(PathEvent::Hit { light: false }), PathAction::Scatter);
    assert!(path.is_alive());
    assert_eq!(path.bounce(PathEvent::Hit { light: true }), PathAction::Scatter);
    assert!(!path.is_alive());
}

#[test]
fn a_path_ends_when_its_bounces_are_used_up() {
    let mut path = PathState::new(3);
    let mut bounces = 0;
    while path.is_alive() {
        assert_eq!(path.bounce(PathEvent::Hit { light: false }), PathAction::Scatter);
        bounces += 1;
    }
    assert_eq!(bounces, 3);
    assert!(!PathState::new(0).is_alive());
}
