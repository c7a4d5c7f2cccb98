use creature_creator::geometry::{Point3, Vector3};
use creature_creator::particle_system::{
    govern, outcome, reach, Parameters, Particle, ParticleStorage, ParticleSystem, ParticleUpdate,
    MAX_PARTICLES,
};
use creature_creator::relaxation::Fate;
use creature_creator::pool::StackPoolAllocator;
use creature_creator::spatial_indexer::kd_indexer::KdIndexer;

fn at_rest(count: usize, spacing: i32) -> Vec<(Point3, Vector3)> {
    (0..count).map(|k| (Point3::new(k as i32 * spacing, 0, 0), Vector3::zero())).collect()
}

fn with_radius(radius: u32) -> Parameters {
    Parameters { desired_repulsion_radius: radius, ..Parameters::default() }
}

fn storage(count: usize, radius: u32) -> ParticleStorage<StackPoolAllocator<MAX_PARTICLES>, KdIndexer> {
    ParticleStorage::init_with_samples(
        StackPoolAllocator::new(),
        KdIndexer::new(),
        at_rest(count, 10),
        radius,
    )
}

#[test]
fn the_default_parameters() {
    let p = Parameters::default();
    assert_eq!(p.time_step, 30);
    assert_eq!(p.iterations_per_step, 1);
    assert_eq!(p.feedback, 15);
    assert_eq!(p.repulsion_amplitude, 6000);
    assert_eq!(p.desired_energy_fraction, 800);
    assert_eq!(p.desired_repulsion_radius, 0);
    assert_eq!(p.max_repulsion_radius_fraction, 1200);
    assert_eq!(p.equilibrium_speed, 6);
    assert_eq!(p.fission_faction, 200);
    assert_eq!(p.death_fraction, 700);
    assert_eq!(p.neighbour_radius, 3);
    assert_eq!(p.desired_energy(), 4800);
    assert_eq!(p.max_repulsion_radius(), 0);
}

#[test]
fn derived_parameters_round_down() {
    let p = Parameters {
        desired_repulsion_radius: 999,
        repulsion_amplitude: 7,
        desired_energy_fraction: 999,
        ..Parameters::default()
    };
    assert_eq!(p.max_repulsion_radius(), 1198);
    assert_eq!(p.desired_energy(), 6);
    let largest = Parameters {
        desired_repulsion_radius: u32::MAX,
        max_repulsion_radius_fraction: u32::MAX,
        ..Parameters::default()
    };
    assert_eq!(largest.max_repulsion_radius(), 18446744065119617);
}

#[test]
fn the_reach_scales_the_radius() {
    assert_eq!(reach(7, 3), 21);
    assert_eq!(reach(0, 3), 0);
    assert_eq!(reach(65536, 65535), 4294901760);
    assert_eq!(reach(65536, 65536), u32::MAX);
    assert_eq!(reach(u32::MAX, u32::MAX), u32::MAX);
}

#[test]
fn a_new_system_shows_its_samples() {
    let system = ParticleSystem::new(with_radius(12), at_rest(4, 10));
    assert_eq!(system.time, 0);
    assert_eq!(
        system.positions(),
        vec![
            (Point3::new(0, 0, 0), 12),
            (Point3::new(10, 0, 0), 12),
            (Point3::new(20, 0, 0), 12),
            (Point3::new(30, 0, 0), 12),
        ]
    );
}

#[test]
fn the_pools_change_roles() {
    let mut storage = storage(2, 5);
    assert!(storage._active_pool);
    assert_eq!(storage.active_set()[0].position, Point3::new(0, 0, 0));
    storage.active_set_mut()[0].radius = 99;
    assert_eq!(storage.inactive_set()[0].radius, 5);
    storage.toggle_set();
    assert!(!storage._active_pool);
    assert_eq!(storage.inactive_set()[0].radius, 99);
    storage.inactive_set_mut()[1].radius = 77;
    assert_eq!(storage.positions(), vec![(Point3::new(0, 0, 0), 99), (Point3::new(10, 0, 0), 77)]);
}

#[test]
fn each_particle_is_given_its_neighbours() {
    let mut system = ParticleSystem::new(with_radius(7), at_rest(6, 10));
    // the reach is three radii, 21: two neighbours at the ends, four in the middle
    let count = |p: Particle, n: Vec<Particle>| -> ParticleUpdate {
        assert!(n.iter().all(|q| q.position != p.position));
        assert!(n.iter().all(|q| (q.position.x - p.position.x).abs() <= 21));
        ParticleUpdate::Live(Particle { radius: n.len() as u32, ..p })
    };
    assert!(!system.storage.update_particles(3, &count));
    let radii: Vec<u32> = system.positions().iter().map(|p| p.1).collect();
    assert_eq!(radii, vec![2, 3, 4, 4, 3, 2]);
}

#[test]
fn a_step_follows_the_rules_of_relaxation() {
    // a desired radius of 1000 and an equilibrium speed of 6 radii
    let parameters = with_radius(1000);
    let samples = vec![
        // at rest and too large: splits
        (Point3::new(0, 0, 0), Vector3::zero()),
        // in motion: moves on
        (Point3::new(100_000, 0, 0), Vector3::new(0, 9000, 0)),
    ];
    let mut system = ParticleSystem::new(Parameters { desired_repulsion_radius: 1500, ..parameters }, samples);
    system.parameters.desired_repulsion_radius = 1000;
    let energy_of = |_p: Particle, _n: &Vec<Particle>| -> u64 { 0 };
    let split = |p: Particle| -> Option<(Particle, Particle)> {
        let child = Particle { radius: 1060, velocity: Vector3::new(0, 9000, 0), ..p };
        Some((child, Particle { position: Point3::new(0, 50_000, 0), ..child }))
    };
    let advance = |p: Particle, _n: &Vec<Particle>| -> Option<Particle> {
        Some(Particle { position: Point3::new(p.position.x, p.position.y, p.position.z + 1), ..p })
    };
    assert!(!system.advance_simulation(&energy_of, &split, &advance));
    assert_eq!(system.time, 30);
    assert_eq!(
        system.positions(),
        vec![
            (Point3::new(0, 0, 0), 1060),
            (Point3::new(100_000, 0, 1), 1500),
            (Point3::new(0, 50_000, 0), 1060),
        ]
    );
    // the children are in motion now: nothing splits in the next step
    assert!(!system.advance_simulation(&energy_of, &split, &advance));
    assert_eq!(
        system.positions(),
        vec![
            (Point3::new(0, 0, 1), 1060),
            (Point3::new(100_000, 0, 2), 1500),
            (Point3::new(0, 50_000, 1), 1060),
        ]
    );
}

#[test]
fn where_nothing_can_be_computed_a_particle_is_kept() {
    let mut system = ParticleSystem::new(with_radius(1500), at_rest(2, 100_000));
    system.parameters.desired_repulsion_radius = 1000;
    let energy_of = |_p: Particle, _n: &Vec<Particle>| -> u64 { 0 };
    let split = |_p: Particle| -> Option<(Particle, Particle)> { None };
    let advance = |_p: Particle, _n: &Vec<Particle>| -> Option<Particle> { None };
    let before = system.positions();
    assert!(!system.advance_simulation(&energy_of, &split, &advance));
    assert_eq!(system.positions(), before);
}

#[test]
fn kills_are_carried_out_when_the_pass_ends() {
    let mut storage = storage(6, 7);
    let cull = |p: Particle, _n: Vec<Particle>| -> ParticleUpdate {
        if p.position.x % 20 == 10 {
            ParticleUpdate::Kill
        } else {
            ParticleUpdate::Live(p)
        }
    };
    assert!(!storage.update_particles(3, &cull));
    assert_eq!(storage.active_particles, vec![0, 2, 4]);
    assert_eq!(
        storage.positions(),
        vec![(Point3::new(0, 0, 0), 7), (Point3::new(20, 0, 0), 7), (Point3::new(40, 0, 0), 7)]
    );
    // the freed slots are handed out again, the one freed last first
    let split_first = |p: Particle, _n: Vec<Particle>| -> ParticleUpdate {
        if p.position.x == 0 {
            ParticleUpdate::Fission(p, Particle { position: Point3::new(0, 5, 0), ..p })
        } else {
            ParticleUpdate::Live(p)
        }
    };
    assert!(!storage.update_particles(3, &split_first));
    assert_eq!(storage.active_particles, vec![0, 2, 4, 1]);
    assert_eq!(storage.positions()[3], (Point3::new(0, 5, 0), 7));
}

#[test]
fn a_note_and_its_carrying_out() {
    let mut storage = storage(5, 7);
    let mut killed: Vec<usize> = Vec::new();
    assert!(!storage.record(1, ParticleUpdate::Kill, &mut killed));
    assert!(!storage.record(3, ParticleUpdate::Kill, &mut killed));
    assert_eq!(killed, vec![1, 3]);
    assert_eq!(storage.active_particles, vec![0, 1, 2, 3, 4]);
    storage.retire(&killed);
    assert_eq!(storage.active_particles, vec![0, 2, 4]);
    storage.retire(&Vec::new());
    assert_eq!(storage.active_particles, vec![0, 2, 4]);
}

#[test]
fn a_fission_writes_the_sibling_to_both_pools() {
    let mut storage = storage(2, 7);
    let first = Particle { position: Point3::new(1, 1, 1), velocity: Vector3::zero(), radius: 4 };
    let second = Particle { position: Point3::new(2, 2, 2), velocity: Vector3::zero(), radius: 4 };
    let mut killed: Vec<usize> = Vec::new();
    assert!(!storage.record(0, ParticleUpdate::Fission(first, second), &mut killed));
    assert!(killed.is_empty());
    assert_eq!(storage.active_particles, vec![0, 1, 2]);
    assert_eq!(storage.active_set()[0], first);
    assert_eq!(storage.active_set()[2], second);
    assert_eq!(storage.inactive_set()[2], second);
    assert_eq!(storage.inactive_set()[0].position, Point3::new(0, 0, 0));
    // the parent's neighbours are still those of the pass
    assert_eq!(storage.neighbour_indices(0, 3), vec![1]);
    assert_eq!(storage.neighbours(1, 3).len(), 1);
}

#[test]
fn a_fission_without_a_free_slot_is_refused() {
    let mut storage = storage(MAX_PARTICLES, 1);
    let split = |p: Particle, _n: Vec<Particle>| -> ParticleUpdate {
        if p.position.x == 50 {
            ParticleUpdate::Fission(Particle { radius: 9, ..p }, p)
        } else {
            ParticleUpdate::Live(p)
        }
    };
    assert!(storage.update_particles(3, &split));
    let shown = storage.positions();
    assert_eq!(shown.len(), MAX_PARTICLES);
    assert_eq!(shown[5], (Point3::new(50, 0, 0), 1));
}

#[test]
fn a_step_makes_as_many_passes_as_asked() {
    let parameters = Parameters { iterations_per_step: 3, time_step: 7, ..with_radius(2) };
    let samples = vec![
        (Point3::new(0, 0, 0), Vector3::new(100, 0, 0)),
        (Point3::new(1000, 0, 0), Vector3::new(100, 0, 0)),
    ];
    let mut system = ParticleSystem::new(parameters, samples);
    let energy_of = |_p: Particle, _n: &Vec<Particle>| -> u64 { 0 };
    let split = |_p: Particle| -> Option<(Particle, Particle)> { None };
    let climb = |p: Particle, _n: &Vec<Particle>| -> Option<Particle> {
        Some(Particle { position: Point3::new(p.position.x, p.position.y + 1, 0), ..p })
    };
    assert!(!system.advance_simulation(&energy_of, &split, &climb));
    assert_eq!(system.time, 21);
    assert_eq!(system.positions(), vec![(Point3::new(0, 3, 0), 2), (Point3::new(1000, 3, 0), 2)]);
    system.time = u64::MAX - 10;
    system.advance_simulation(&energy_of, &split, &climb);
    assert_eq!(system.time, u64::MAX);
}

#[test]
fn a_fate_and_what_was_computed_give_the_outcome() {
    let p = Particle { position: Point3::new(1, 2, 3), velocity: Vector3::zero(), radius: 4 };
    let q = Particle { position: Point3::new(5, 6, 7), velocity: Vector3::zero(), radius: 8 };
    assert_eq!(outcome(p, Fate::Death, Some((p, q)), Some(q)), ParticleUpdate::Kill);
    assert_eq!(outcome(p, Fate::Fission, Some((q, p)), None), ParticleUpdate::Fission(q, p));
    assert_eq!(outcome(p, Fate::Fission, None, Some(q)), ParticleUpdate::Live(p));
    assert_eq!(outcome(p, Fate::Motion, None, Some(q)), ParticleUpdate::Live(q));
    assert_eq!(outcome(p, Fate::Motion, Some((q, q)), None), ParticleUpdate::Live(p));
}

#[test]
fn the_parameters_set_where_rest_begins() {
    let energy = |_p: Particle, _n: &Vec<Particle>| -> u64 { 0 };
    let split = |p: Particle| -> Option<(Particle, Particle)> { Some((p, p)) };
    let advance = |p: Particle, _n: &Vec<Particle>| -> Option<Particle> {
        Some(Particle { radius: p.radius + 1, ..p })
    };
    let parameters = with_radius(1000);
    // too large, at six radii of speed: in motion by the default parameters
    let p = Particle { position: Point3::new(0, 0, 0), velocity: Vector3::new(9000, 0, 0), radius: 1500 };
    assert_eq!(
        govern(&parameters, p, Vec::new(), &energy, &split, &advance),
        ParticleUpdate::Live(Particle { radius: 1501, ..p })
    );
    // at rest where rest begins below seven radii
    let lenient = Parameters { equilibrium_speed: 7, ..parameters };
    assert_eq!(
        govern(&lenient, p, Vec::new(), &energy, &split, &advance),
        ParticleUpdate::Fission(p, p)
    );
}

#[test]
fn a_pass_moves_the_clock_by_one_time_step() {
    let mut system = ParticleSystem::new(
        Parameters { iterations_per_step: 5, ..with_radius(2) },
        vec![(Point3::new(0, 0, 0), Vector3::new(100, 0, 0))],
    );
    let energy = |_p: Particle, _n: &Vec<Particle>| -> u64 { 0 };
    let split = |_p: Particle| -> Option<(Particle, Particle)> { None };
    let advance = |p: Particle, _n: &Vec<Particle>| -> Option<Particle> {
        Some(Particle { radius: p.radius + 1, ..p })
    };
    assert!(!system.pass(&energy, &split, &advance));
    assert_eq!(system.time, 30);
    assert_eq!(system.positions(), vec![(Point3::new(0, 0, 0), 3)]);
    assert!(!system.advance_simulation(&energy, &split, &advance));
    assert_eq!(system.time, 180);
    assert_eq!(system.positions(), vec![(Point3::new(0, 0, 0), 8)]);
    system.parameters.iterations_per_step = 0;
    assert!(!system.advance_simulation(&energy, &split, &advance));
    assert_eq!(system.time, 180);
    assert_eq!(system.positions(), vec![(Point3::new(0, 0, 0), 8)]);
}

#[test]
fn an_outcome_without_a_radius_keeps_the_particle() {
    let p = Particle { position: Point3::new(1, 2, 3), velocity: Vector3::zero(), radius: 4 };
    let none = Particle { radius: 0, ..p };
    assert_eq!(outcome(p, Fate::Motion, None, Some(none)), ParticleUpdate::Live(p));
    assert_eq!(outcome(p, Fate::Fission, Some((p, none)), None), ParticleUpdate::Live(p));
    assert_eq!(outcome(p, Fate::Fission, Some((none, p)), None), ParticleUpdate::Live(p));
}

#[test]
fn a_pass_leaves_the_children_of_a_fission_and_drops_the_killed() {
    let mut storage = storage(4, 7);
    let child = |x: i32| Particle { position: Point3::new(x, 1, 0), velocity: Vector3::zero(), radius: 5 };
    let rule = |p: Particle, _n: Vec<Particle>| -> ParticleUpdate {
        match p.position.x {
            0 => ParticleUpdate::Fission(child(0), child(1)),
            10 => ParticleUpdate::Kill,
            20 => ParticleUpdate::Fission(child(20), child(21)),
            _ => ParticleUpdate::Live(Particle { radius: 9, ..p }),
        }
    };
    assert!(!storage.update_particles(3, &rule));
    // the list is the old one with the siblings at its end and the killed taken out
    assert_eq!(storage.active_particles, vec![0, 2, 3, 4, 5]);
    assert_eq!(
        storage.positions(),
        vec![
            (Point3::new(0, 1, 0), 5),
            (Point3::new(20, 1, 0), 5),
            (Point3::new(30, 0, 0), 9),
            (Point3::new(1, 1, 0), 5),
            (Point3::new(21, 1, 0), 5),
        ]
    );
}
