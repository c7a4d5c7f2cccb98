use creature_creator::geometry::{Point3, Vector3};
use creature_creator::relaxation::{
    decide, is_at_rest, is_slower_than, neighbour_reach, should_die, should_die_with,
    should_fission_energy, should_fission_radius, Fate, RelaxationSystem,
    DESIRED_REPULSION_ENERGY, REPULSION_AMPLITUDE,
};
use creature_creator::surfaces::live_sampling::Particle;

#[test]
fn desired_energy_is_eight_tenths_of_the_amplitude() {
    assert_eq!(DESIRED_REPULSION_ENERGY * 10, REPULSION_AMPLITUDE * 8);
}

#[test]
fn a_particle_rests_below_a_hundred_radii_of_speed() {
    assert!(is_at_rest(&Vector3::new(0, 0, 0), 1));
    assert!(is_at_rest(&Vector3::new(99, 0, 0), 1));
    assert!(!is_at_rest(&Vector3::new(100, 0, 0), 1));
    assert!(is_at_rest(&Vector3::new(60, 79, 0), 1));
    assert!(!is_at_rest(&Vector3::new(60, 80, 0), 1));
    assert!(!is_at_rest(&Vector3::new(0, 0, 0), 0));
    assert!(is_at_rest(&Vector3::new(i32::MIN, i32::MIN, i32::MIN), u32::MAX));
}

#[test]
fn a_particle_is_slow_below_the_given_number_of_radii() {
    assert!(is_slower_than(&Vector3::new(5, 0, 0), 1, 6));
    assert!(!is_slower_than(&Vector3::new(6, 0, 0), 1, 6));
    assert!(is_slower_than(&Vector3::new(2, 3, 6), 2, 4));
    assert!(!is_slower_than(&Vector3::new(2, 3, 6), 1, 7));
    assert!(!is_slower_than(&Vector3::new(0, 0, 0), 5, 0));
    assert!(is_slower_than(&Vector3::new(i32::MIN, i32::MIN, i32::MIN), u32::MAX, u32::MAX));
}

#[test]
fn death_needs_a_small_radius_and_a_high_draw() {
    // seven tenths of 1000 is 700: at 700 a particle is safe
    assert!(!should_die_with(700, 1000, u32::MAX));
    assert!(!should_die_with(1000, 1000, u32::MAX));
    // at half the death radius the draw decides at one half
    assert!(!should_die_with(350, 1000, 0x8000_0000));
    assert!(should_die_with(350, 1000, 0x8000_0001));
    assert!(!should_die_with(350, 1000, 0));
    // at radius zero any draw above zero kills
    assert!(should_die_with(0, 1000, 1));
    assert!(!should_die_with(0, 1000, 0));
    // no desired radius, no death
    assert!(!should_die_with(0, 0, u32::MAX));
}

#[test]
fn no_draw_kills_a_particle_of_sufficient_radius() {
    for _ in 0..200 {
        assert!(!should_die(700, 1000));
        assert!(!should_die(u32::MAX, u32::MAX));
    }
}

#[test]
fn some_draws_kill_a_small_particle_and_some_spare_it() {
    let mut died = 0;
    for _ in 0..400 {
        if should_die(350, 1000) {
            died += 1;
        }
    }
    assert!(died > 0);
    assert!(died < 400);
}

#[test]
fn fission_by_radius_starts_above_twelve_tenths() {
    assert!(!should_fission_radius(1200, 1000));
    assert!(should_fission_radius(1201, 1000));
    assert!(!should_fission_radius(0, 0));
    assert!(should_fission_radius(1, 0));
    assert!(!should_fission_radius(u32::MAX, u32::MAX));
}

#[test]
fn fission_by_energy_needs_a_large_radius_too() {
    // two tenths of the desired energy of 4800 thousandths is 960
    assert!(!should_fission_energy(1001, 960, 1000));
    assert!(should_fission_energy(1001, 961, 1000));
    assert!(!should_fission_energy(1000, 961, 1000));
    assert!(should_fission_energy(u32::MAX, u64::MAX, 0));
}

#[test]
fn the_fate_follows_the_rules_in_order() {
    let still = Vector3::new(0, 0, 0);
    let fast = Vector3::new(1_000_000, 0, 0);
    // in motion: nothing else is asked
    assert_eq!(decide(&fast, 100, u64::MAX, 1000, u32::MAX), Fate::Motion);
    // at rest and small, with a high draw: death
    assert_eq!(decide(&still, 100, 0, 1000, u32::MAX), Fate::Death);
    // at rest and small, with a low draw: motion
    assert_eq!(decide(&still, 100, 0, 1000, 0), Fate::Motion);
    // at rest and too large: fission
    assert_eq!(decide(&still, 1300, 0, 1000, u32::MAX), Fate::Fission);
    // at rest, crowded and above the desired radius: fission
    assert_eq!(decide(&still, 1100, 5000, 1000, u32::MAX), Fate::Fission);
    // at rest, crowded, but not above the desired radius: motion
    assert_eq!(decide(&still, 1000, 5000, 1000, u32::MAX), Fate::Motion);
}

#[test]
fn the_reach_is_three_radii_or_all_there_is() {
    assert_eq!(neighbour_reach(0), 0);
    assert_eq!(neighbour_reach(7), 21);
    assert_eq!(neighbour_reach(u32::MAX / 3), u32::MAX / 3 * 3);
    assert_eq!(neighbour_reach(u32::MAX / 3 + 1), u32::MAX);
    assert_eq!(neighbour_reach(u32::MAX), u32::MAX);
}

#[test]
fn a_relaxation_system_shows_its_positions_in_order() {
    let positions = vec![Point3::new(5, 0, 0), Point3::new(0, 5, 0), Point3::new(0, 0, 5)];
    let system = RelaxationSystem::new(positions.clone(), 9);
    let shown = system.positions();
    assert_eq!(shown.len(), 3);
    for k in 0..3 {
        assert_eq!(shown[k], (positions[k], 9));
    }
}

#[test]
fn a_relaxation_system_moves_its_particles_by_what_it_is_given() {
    let positions = vec![Point3::new(0, 0, 0), Point3::new(10, 0, 0)];
    let mut system = RelaxationSystem::new(positions, 1000);
    let energy_of = |_p: Particle, _n: &Vec<Particle>| -> u64 { 0 };
    let split = |_p: Particle| -> Option<(Particle, Particle)> { None };
    let advance = |p: Particle, n: &Vec<Particle>| -> Option<Particle> {
        Some(Particle {
            position: Point3::new(p.position.x, p.position.y + 1 + n.len() as i32, 0),
            // fast enough never to rest
            velocity: Vector3::new(1_000_000, 0, 0),
            normal: p.normal,
            radius: p.radius,
        })
    };
    // the particles start at rest; a radius of 1000 against a desired 1000 lets them live
    let error = system.update(1000, &energy_of, &split, &advance);
    assert_eq!(error, None);
    let shown = system.positions();
    // four passes, each with one neighbour in reach: two lattice units up per pass
    assert_eq!(shown, vec![(Point3::new(0, 8, 0), 1000), (Point3::new(10, 8, 0), 1000)]);
}
