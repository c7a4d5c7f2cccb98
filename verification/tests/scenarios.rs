use creature_creator::geometry::{Point3, Vector3};
use creature_creator::relaxation::{
    DESIRED_REPULSION_ENERGY, ENERGY_UNIT, FEEDBACK, ITERATION_T_STEP, REPULSION_AMPLITUDE,
};
use creature_creator::surfaces::initial_sampling::sample;
use creature_creator::surfaces::live_sampling::{Particle, SamplingError, SamplingSystem};
use std::cell::Cell;

// One unit of length is this many lattice units.
const UNITS: f32 = 65536.0;

type V3 = [f32; 3];

fn add(a: V3, b: V3) -> V3 {
    [a[0] + b[0], a[1] + b[1], a[2] + b[2]]
}

fn sub(a: V3, b: V3) -> V3 {
    [a[0] - b[0], a[1] - b[1], a[2] - b[2]]
}

fn scale(a: V3, k: f32) -> V3 {
    [a[0] * k, a[1] * k, a[2] * k]
}

fn dot(a: V3, b: V3) -> f32 {
    a[0] * b[0] + a[1] * b[1] + a[2] * b[2]
}

fn cross(a: V3, b: V3) -> V3 {
    [a[1] * b[2] - a[2] * b[1], a[2] * b[0] - a[0] * b[2], a[0] * b[1] - a[1] * b[0]]
}

fn norm(a: V3) -> f32 {
    dot(a, a).sqrt()
}

fn unit(a: V3) -> Option<V3> {
    let n = norm(a);
    if !n.is_finite() || n == 0.0 {
        return None;
    }
    Some(scale(a, 1.0 / n))
}

fn to_units(x: f32) -> Option<i32> {
    let s = (x * UNITS).round();
    if !s.is_finite() || s < i32::MIN as f32 || s > i32::MAX as f32 {
        return None;
    }
    Some(s as i32)
}

fn to_radius(x: f32) -> Option<u32> {
    let s = (x * UNITS).round();
    if !s.is_finite() || s < 0.0 || s > u32::MAX as f32 {
        return None;
    }
    Some(s as u32)
}

fn to_point(p: V3) -> Option<Point3> {
    Some(Point3::new(to_units(p[0])?, to_units(p[1])?, to_units(p[2])?))
}

fn to_vector(p: V3) -> Option<Vector3> {
    Some(Vector3::new(to_units(p[0])?, to_units(p[1])?, to_units(p[2])?))
}

fn from_point(p: Point3) -> V3 {
    [p.x as f32 / UNITS, p.y as f32 / UNITS, p.z as f32 / UNITS]
}

fn from_vector(p: Vector3) -> V3 {
    [p.x as f32 / UNITS, p.y as f32 / UNITS, p.z as f32 / UNITS]
}

fn gradient(f: &dyn Fn(V3) -> f32, p: V3) -> V3 {
    let h = 0.0001;
    let sp = f(p);
    [
        (f([p[0] + h, p[1], p[2]]) - sp) / h,
        (f([p[0], p[1] + h, p[2]]) - sp) / h,
        (f([p[0], p[1], p[2] + h]) - sp) / h,
    ]
}

fn normal(f: &dyn Fn(V3) -> f32, p: V3) -> Option<V3> {
    unit(gradient(f, p))
}

fn on_surface(f: &dyn Fn(V3) -> f32, p: V3) -> bool {
    f(p).abs() <= f32::EPSILON * 2.0
}

fn seed(f: &dyn Fn(V3) -> f32, start: V3) -> Option<V3> {
    let mut p = start;
    if on_surface(f, p) {
        return Some(p);
    }
    for _ in 0..100 {
        let grad = gradient(f, p);
        let gdg = dot(grad, grad);
        if gdg.is_nan() || gdg == 0.0 {
            return None;
        }
        p = sub(p, scale(grad, f(p) / gdg));
        if on_surface(f, p) {
            return Some(p);
        }
    }
    None
}

fn refine_point(f: &dyn Fn(V3) -> f32, radius: f32, parent: V3, guess: V3) -> V3 {
    let mut point = guess;
    for _ in 0..10 {
        let grad = gradient(f, point);
        point = sub(point, scale(grad, f(point) / dot(grad, grad)));
        let away = sub(point, parent);
        if norm(away) < radius * 2.0 {
            point = add(point, scale(away, radius * 2.0 - norm(away)));
        }
        if on_surface(f, point) {
            break;
        }
    }
    point
}

fn sibling_points(f: &dyn Fn(V3) -> f32, parent: V3, radius: f32) -> Vec<V3> {
    let n = match normal(f, parent) {
        Some(n) => n,
        None => return Vec::new(),
    };
    // the axis along which the normal reaches least: no normal is parallel to it
    let mut least = 0;
    for axis in 1..3 {
        if n[axis].abs() < n[least].abs() {
            least = axis;
        }
    }
    let mut cardinal = [0.0, 0.0, 0.0];
    cardinal[least] = 1.0;
    let u = match unit(cross(n, cardinal)) {
        Some(u) => u,
        None => return Vec::new(),
    };
    let v = match unit(cross(u, n)) {
        Some(v) => v,
        None => return Vec::new(),
    };
    (0..6)
        .map(|i| {
            let angle = (i as f64 * std::f64::consts::PI) / 3.0;
            let guess = add(
                parent,
                add(
                    scale(u, angle.cos() as f32 * radius * 2.0),
                    scale(v, angle.sin() as f32 * radius * 2.0),
                ),
            );
            refine_point(f, radius, parent, guess)
        })
        .collect()
}

fn first_covering(
    f: &dyn Fn(V3) -> f32,
    start: V3,
    radius: f32,
    limit: usize,
) -> Option<Vec<(Point3, Vector3)>> {
    let seed = to_point(seed(f, start)?)?;
    let siblings_of = |parent: Point3| -> Vec<Point3> {
        sibling_points(f, from_point(parent), radius).into_iter().filter_map(to_point).collect()
    };
    let positions = sample(seed, to_radius(radius)?, limit, &siblings_of);
    Some(
        positions
            .into_iter()
            .filter_map(|p| Some((p, to_vector(normal(f, from_point(p))?)?)))
            .collect(),
    )
}

fn amplitude() -> f32 {
    REPULSION_AMPLITUDE as f32 / ENERGY_UNIT as f32
}

fn energy_contribution(radius: f32, i: V3, j: V3) -> f32 {
    let d = norm(sub(i, j));
    amplitude() * (-(d * d / ((2.0 * radius) * (2.0 * radius)))).exp()
}

struct Neighbour {
    position: V3,
    radius: f32,
    energy: f32,
    reverse_energy: f32,
}

fn gather(position: V3, radius: f32, neighbours: &[Particle]) -> Vec<Neighbour> {
    neighbours
        .iter()
        .map(|n| {
            let n_position = from_point(n.position);
            let n_radius = n.radius as f32 / UNITS;
            Neighbour {
                position: n_position,
                radius: n_radius,
                energy: energy_contribution(radius, position, n_position),
                reverse_energy: energy_contribution(n_radius, n_position, position),
            }
        })
        .collect()
}

fn energy_of(p: Particle, neighbours: &Vec<Particle>) -> u64 {
    let seen = gather(from_point(p.position), p.radius as f32 / UNITS, neighbours);
    let energy: f32 = seen.iter().map(|n| n.energy).sum();
    (energy * ENERGY_UNIT as f32).round().max(0.0) as u64
}

fn advance(f: &dyn Fn(V3) -> f32, p: Particle, neighbours: &Vec<Particle>) -> Option<Particle> {
    let position = from_point(p.position);
    let radius = p.radius as f32 / UNITS;
    let dt = ITERATION_T_STEP as f32 / 1000.0;
    let seen = gather(position, radius, neighbours);
    let energy: f32 = seen.iter().map(|n| n.energy).sum();
    let push = scale(
        seen.iter().fold([0.0, 0.0, 0.0], |dv, n| {
            let rij = sub(position, n.position);
            let rei = scale(rij, n.energy / (radius * radius));
            let rej = scale(rij, n.reverse_energy / (n.radius * n.radius));
            add(dv, add(rei, rej))
        }),
        radius * radius,
    );
    let n = from_vector(p.normal);
    let velocity = sub(push, scale(n, (dot(n, push) + FEEDBACK as f32 * f(position)) / dot(n, n)));
    let new_position = add(position, scale(velocity, dt));
    let new_normal = normal(f, new_position)?;
    let re_delta = -(FEEDBACK as f32 * (energy - DESIRED_REPULSION_ENERGY as f32 / ENERGY_UNIT as f32));
    let di_ai = (1.0 / (radius * radius * radius))
        * seen
            .iter()
            .map(|n| {
                let d = norm(sub(new_position, n.position));
                d * d * n.energy
            })
            .sum::<f32>();
    let new_radius = radius + (re_delta / (di_ai + 10.0)) * dt;
    Some(Particle {
        position: to_point(new_position)?,
        velocity: to_vector(velocity)?,
        normal: to_vector(new_normal)?,
        radius: to_radius(new_radius)?,
    })
}

// A direction from a counter: the same run gives the same directions.
fn direction(counter: &Cell<u32>) -> V3 {
    let mut next = || {
        let state = counter.get().wrapping_mul(1664525).wrapping_add(1013904223);
        counter.set(state);
        (state >> 8) as f32 / (1u32 << 24) as f32
    };
    let v = [next(), next(), next()];
    unit(v).unwrap_or([1.0, 0.0, 0.0])
}

fn split(f: &dyn Fn(V3) -> f32, counter: &Cell<u32>, p: Particle) -> Option<(Particle, Particle)> {
    let position = from_point(p.position);
    let radius = p.radius as f32 / UNITS;
    let new_radius = to_radius(radius / 2.0_f32.sqrt())?;
    let offset = scale(direction(counter), radius);
    let child = |at: V3| -> Option<Particle> {
        Some(Particle {
            position: to_point(at)?,
            velocity: Vector3::zero(),
            normal: to_vector(normal(f, at)?)?,
            radius: new_radius,
        })
    };
    Some((child(add(position, offset))?, child(sub(position, offset))?))
}

fn step<const N: usize>(
    system: &mut SamplingSystem<N>,
    f: &dyn Fn(V3) -> f32,
    start: V3,
    desired_radius: f32,
    counter: &Cell<u32>,
) -> Option<SamplingError> {
    let first = |_r: u32| first_covering(f, start, desired_radius * 2.0, N + 1);
    let split = |p: Particle| split(f, counter, p);
    let advance = |p: Particle, n: &Vec<Particle>| advance(f, p, n);
    system.update(to_radius(desired_radius).unwrap(), &first, &energy_of, &split, &advance)
}

fn sphere(centre: V3, radius: f32) -> impl Fn(V3) -> f32 {
    move |p| {
        let d = sub(p, centre);
        dot(d, d) - radius * radius
    }
}

fn nearest_neighbour_distances(points: &[V3]) -> Vec<f32> {
    points
        .iter()
        .enumerate()
        .map(|(i, p)| {
            points
                .iter()
                .enumerate()
                .filter(|(j, _)| *j != i)
                .map(|(_, q)| norm(sub(*p, *q)))
                .fold(f32::INFINITY, f32::min)
        })
        .collect()
}

fn shown<const N: usize>(system: &SamplingSystem<N>) -> Vec<V3> {
    system.positions().iter().map(|(p, _, _)| from_point(*p)).collect()
}

#[test]
fn a_unit_sphere_is_sampled_on_its_surface() {
    let f = sphere([0.0, 0.0, 0.0], 1.0);
    let counter = Cell::new(1);
    let mut system = SamplingSystem::<4096>::new();
    let mut counts = Vec::new();
    for _ in 0..200 {
        assert_eq!(step(&mut system, &f, [0.0, 1.0, 0.0], 0.5, &counter), None);
        counts.push(system.live_count());
    }
    let points = shown(&system);
    assert!(!points.is_empty());
    for p in &points {
        assert!(norm(*p) >= 0.98 && norm(*p) <= 1.02);
    }
    // the cloud has settled: the count has not changed over the second half
    assert!(counts[100..].iter().all(|c| *c == counts[199]));
    // and no two particles sit on top of each other
    let nearest = nearest_neighbour_distances(&points);
    let mean = nearest.iter().sum::<f32>() / nearest.len() as f32;
    assert!(mean >= 0.85 * 0.5);
    // the normals point away from the centre and have unit length
    for (p, n, _) in system.positions() {
        let n = from_vector(n);
        assert!((norm(n) - 1.0).abs() <= 1e-3);
        assert!(dot(n, from_point(p)) > 0.99);
    }
    assert_eq!(system.time(), 800 * ITERATION_T_STEP);
}

#[test]
fn an_ellipsoid_is_covered_in_every_octant() {
    let f = |p: V3| p[0] * p[0] / 9.0 + p[1] * p[1] / 4.0 + p[2] * p[2] - 1.0;
    let counter = Cell::new(1);
    let mut system = SamplingSystem::<4096>::new();
    for _ in 0..300 {
        assert_eq!(step(&mut system, &f, [0.3, 0.2, 0.9], 0.3, &counter), None);
    }
    let points = shown(&system);
    let mut octants = [0usize; 8];
    for p in &points {
        octants[(p[0] > 0.0) as usize + 2 * (p[1] > 0.0) as usize + 4 * (p[2] > 0.0) as usize] +=
            1;
        // the distance to the surface, to first order
        assert!(f(*p).abs() / norm(gradient(&f, *p)) <= 0.05);
    }
    assert!(octants.iter().all(|count| *count >= 1));
}

#[test]
fn both_lobes_of_two_joined_spheres_are_covered() {
    let a = sphere([-1.0, 0.0, 0.0], 1.0);
    let b = sphere([1.0, 0.0, 0.0], 1.0);
    let f = move |p: V3| {
        let (d1, d2) = (a(p), b(p));
        let h = (0.5 - (d1 - d2).abs()).max(0.0);
        d1.min(d2) - h * h * 0.25 / 0.5
    };
    let counter = Cell::new(1);
    let mut system = SamplingSystem::<4096>::new();
    assert_eq!(step(&mut system, &f, [0.0, 0.0, 0.0], 0.3, &counter), None);
    let points = shown(&system);
    assert!(points.iter().any(|p| p[0] < -0.5));
    assert!(points.iter().any(|p| p[0] > 0.5));
}

#[test]
fn a_shrinking_sphere_gains_no_particles() {
    let counter = Cell::new(1);
    let mut system = SamplingSystem::<8192>::new();
    let mut counts = Vec::new();
    for k in 0..100 {
        let r = 10.0 - 5.0 * (k as f32) / 99.0;
        let f = sphere([0.0, 0.0, 0.0], r);
        assert_eq!(step(&mut system, &f, [0.0, r, 0.0], 1.0, &counter), None);
        counts.push(system.live_count());
    }
    for k in 11..100 {
        assert!(counts[k] <= counts[k - 1]);
    }
    // the count that a hexagonal packing at the desired radius would give
    let packed = 4.0 * std::f32::consts::PI * 25.0 / (3.0_f32.sqrt() / 2.0 * 4.0);
    assert!((counts[99] as f32 - packed).abs() < packed / 2.0);
}

#[test]
fn a_moving_sphere_is_followed() {
    let counter = Cell::new(1);
    let mut system = SamplingSystem::<4096>::new();
    let mut mean = f32::INFINITY;
    for k in 0..50 {
        let centre = 0.1 * k as f32;
        let f = sphere([centre, 0.0, 0.0], 1.0);
        assert_eq!(step(&mut system, &f, [centre, 1.0, 0.0], 0.5, &counter), None);
        let points = shown(&system);
        assert!(!points.is_empty());
        mean = points.iter().map(|p| f(*p).abs()).sum::<f32>() / points.len() as f32;
    }
    assert!(mean < 0.1);
}

#[test]
fn a_surface_too_large_for_the_slots_fills_them_and_no_more() {
    // a sphere of radius 10 sampled at a radius of 0.1 asks for thousands of particles
    let f = sphere([0.0, 0.0, 0.0], 10.0);
    let counter = Cell::new(1);
    let mut system = SamplingSystem::<1000>::new();
    let first = step(&mut system, &f, [0.0, 10.0, 0.0], 0.1, &counter);
    assert_eq!(first, Some(SamplingError::CapacityExceeded));
    assert_eq!(system.live_count(), 1000);
    for _ in 0..3 {
        let error = step(&mut system, &f, [0.0, 10.0, 0.0], 0.1, &counter);
        assert!(error == None || error == Some(SamplingError::CapacityExceeded));
        assert!(system.live_count() <= 1000);
    }
    let mut live = system.live_indices();
    live.sort();
    live.dedup();
    assert_eq!(live.len(), system.live_count());
}

#[test]
fn a_surface_without_a_seed_fails_the_step() {
    // a field without a zero: the Newton iteration finds no point
    let f = |p: V3| dot(p, p) + 1.0;
    let counter = Cell::new(1);
    let mut system = SamplingSystem::<64>::new();
    assert_eq!(step(&mut system, &f, [0.5, 0.5, 0.5], 0.5, &counter), Some(SamplingError::SeedingFailed));
    assert_eq!(system.live_count(), 0);
    assert_eq!(system.time(), 0);
}
