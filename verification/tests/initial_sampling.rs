use creature_creator::geometry::Point3;
use creature_creator::surfaces::initial_sampling::{is_too_close, sample};

// The six points around `p` on the plane z = 0, two radii away, for a radius
// of 100: a hexagon on the lattice, so that neighbouring cells meet exactly.
fn hexagon(p: Point3) -> Vec<Point3> {
    [(200, 0), (100, 173), (-100, 173), (-200, 0), (-100, -173), (100, -173)]
        .iter()
        .map(|(dx, dy)| Point3::new(p.x + dx, p.y + dy, 0))
        .collect()
}

// The same, on a patch of the plane: what leaves the patch is pulled back
// to its rim, as a refinement would pull a guess back to a bounded surface.
fn hexagon_on_patch(p: Point3) -> Vec<Point3> {
    hexagon(p).into_iter().map(|q| Point3::new(q.x.clamp(-1000, 1000), q.y.clamp(-1000, 1000), 0)).collect()
}

#[test]
fn too_close_is_within_nineteen_tenths_exactly() {
    let origin = Point3::new(0, 0, 0);
    // at a radius of 1 the bound is 1.9: the square root of 2 is within, 2 is not
    assert!(is_too_close(&origin, &Point3::new(1, 1, 0), 1));
    assert!(is_too_close(&origin, &Point3::new(1, 1, 1), 1));
    assert!(!is_too_close(&origin, &Point3::new(2, 0, 0), 1));
    // at a radius of 10 the bound is 19, the rim included
    assert!(is_too_close(&origin, &Point3::new(19, 0, 0), 10));
    assert!(!is_too_close(&origin, &Point3::new(19, 1, 0), 10));
    // at a radius of 5 the bound is 9.5
    assert!(is_too_close(&origin, &Point3::new(9, 3, 0), 5));
    assert!(!is_too_close(&origin, &Point3::new(9, 3, 1), 5));
    assert!(is_too_close(&origin, &origin, 0));
    assert!(!is_too_close(&origin, &Point3::new(1, 0, 0), 0));
    // the width of the lattice is within nineteen tenths of the largest radius
    let low = Point3::new(i32::MIN, i32::MIN, i32::MIN);
    let high = Point3::new(i32::MAX, i32::MAX, i32::MAX);
    assert!(is_too_close(&low, &high, u32::MAX));
    assert!(!is_too_close(&low, &high, 2_000_000_000));
}

#[test]
fn a_sibling_nearer_than_nineteen_tenths_is_rejected() {
    let pair = |_p: Point3| -> Vec<Point3> { vec![Point3::new(0, 0, 0), Point3::new(1, 1, 0)] };
    assert_eq!(sample(Point3::new(5, 5, 5), 1, 3, &pair), vec![Point3::new(0, 0, 0)]);
    let apart = |_p: Point3| -> Vec<Point3> { vec![Point3::new(0, 0, 0), Point3::new(2, 0, 0)] };
    assert_eq!(
        sample(Point3::new(5, 5, 5), 1, 3, &apart),
        vec![Point3::new(0, 0, 0), Point3::new(2, 0, 0)]
    );
}

#[test]
fn a_radius_beyond_the_reach_of_the_tree_is_tested_on_every_sample() {
    let far = |_p: Point3| -> Vec<Point3> {
        vec![Point3::new(i32::MIN, i32::MIN, i32::MIN), Point3::new(i32::MAX, i32::MAX, i32::MAX)]
    };
    // nineteen tenths of this radius is more than any whole radius, and less than the diagonal
    let samples = sample(Point3::new(0, 0, 0), 3_000_000_000, 5, &far);
    assert_eq!(samples.len(), 2);
    let samples = sample(Point3::new(0, 0, 0), u32::MAX, 5, &far);
    assert_eq!(samples, vec![Point3::new(i32::MIN, i32::MIN, i32::MIN)]);
}

#[test]
fn the_first_ring_is_the_six_siblings_of_the_seed() {
    let seed = Point3::new(0, 0, 0);
    let samples = sample(seed, 100, 6, &hexagon);
    assert_eq!(samples, hexagon(seed));
}

#[test]
fn a_patch_is_covered_without_crowding() {
    let seed = Point3::new(0, 0, 0);
    let samples = sample(seed, 100, 10_000, &hexagon_on_patch);
    assert!(samples.len() > 60);
    assert!(samples.len() < 10_000);
    for (b, q) in samples.iter().enumerate() {
        assert!(q.x.abs() <= 1000 && q.y.abs() <= 1000 && q.z == 0);
        for p in &samples[..b] {
            assert!(!is_too_close(p, q, 100));
        }
    }
    // no room is left: every sibling of every sample is within reach of a sample
    for p in &samples {
        for q in hexagon_on_patch(*p) {
            assert!(samples.iter().any(|s| is_too_close(s, &q, 100)));
        }
    }
    // the seed itself is no sample unless it comes back as a sibling
    assert!(samples.contains(&seed));
    assert_eq!(samples[0], Point3::new(200, 0, 0));
}

#[test]
fn the_limit_bounds_an_endless_surface() {
    let seed = Point3::new(5, -5, 0);
    for limit in [0usize, 1, 7, 250] {
        let samples = sample(seed, 100, limit, &hexagon);
        assert_eq!(samples.len(), limit);
        for (b, q) in samples.iter().enumerate() {
            for p in &samples[..b] {
                assert!(!is_too_close(p, q, 100));
            }
        }
    }
}

#[test]
fn siblings_too_close_to_each_other_are_thinned_out() {
    // all siblings of any point fall on one of two places
    let crowd = |p: Point3| -> Vec<Point3> {
        vec![
            Point3::new(0, 0, 0),
            Point3::new(50, 0, 0),
            Point3::new(1000, 0, 0),
            Point3::new(1000, 100, 0),
            Point3::new(p.x, p.y, 0),
        ]
    };
    let samples = sample(Point3::new(7, 7, 7), 100, 100, &crowd);
    assert_eq!(samples, vec![Point3::new(0, 0, 0), Point3::new(1000, 0, 0)]);
}

#[test]
fn a_seed_without_siblings_gives_nothing() {
    let alone = |_p: Point3| -> Vec<Point3> { Vec::new() };
    assert!(sample(Point3::new(1, 2, 3), 100, 100, &alone).is_empty());
}
