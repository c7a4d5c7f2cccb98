//! The rules by which a particle at rest dies, splits or moves on.
//!
//! Lengths are whole lattice units, as positions are. Energies are counted in
//! thousandths of the unit in which the repulsion amplitude is 6, and the
//! coefficients that scale the desired radius are kept as tenths, so every
//! comparison here is exact.

use vstd::prelude::*;
use crate::geometry::{norm_sq, square, Point3, Vector3};
use crate::surfaces::live_sampling::{
    lemma_seeded_from_nothing, passes_follow_rules, Particle, ParticleUpdate, SamplingError,
    SamplingSystem,
};

verus! {

/// How many thousandths make one unit of energy.
pub const ENERGY_UNIT: u64 = 1000;

/// The amplitude of the repulsion between two particles, in thousandths.
pub const REPULSION_AMPLITUDE: u64 = 6000;

/// The gain with which a particle is pulled back to the surface.
pub const FEEDBACK: u64 = 15;

/// A particle looks for neighbours within this many of its radii.
pub const NEIGHBOUR_RADIUS: u32 = 3;

/// The number of passes over the particles that one update makes.
pub const UPDATE_ITERATIONS: usize = 4;

/// The time that one update stands for, in thousandths of a time unit.
pub const ITERATION_T_STEP: u64 = 30;

/// A particle is at rest while its speed is below this many of its radii.
pub const EQUILIBRIUM_SPEED: u32 = 100;

/// The share of the desired energy above which a particle may split, in tenths.
pub const FISSION_COEFFICIENT: u64 = 2;

/// The share of the desired radius below which a particle may die, in tenths.
pub const DEATH_COEFFICIENT: u64 = 7;

/// The share of the desired radius above which a particle must split, in tenths.
pub const MAX_RADIUS_COEFFICIENT: u64 = 12;

/// The repulsion energy that a particle should feel: eight tenths of the
/// amplitude, in thousandths.
pub const DESIRED_REPULSION_ENERGY: u64 = 4800;

/// The number of values that a random draw can take: a draw `d` stands for
/// the fraction `d / DRAW_RANGE` of the unit interval.
pub const DRAW_RANGE: u64 = 0x1_0000_0000;

/// What becomes of a particle in one pass.
#[derive(Copy, Clone, Debug, PartialEq, Eq, Structural)]
pub enum Fate {
    /// The particle is removed.
    Death,
    /// The particle is replaced by two smaller ones.
    Fission,
    /// The particle moves on under the repulsion of its neighbours.
    Motion,
}

/// A particle is slow when its speed is below `speed` radii.
pub open spec fn slower_than(velocity: Vector3, radius: u32, speed: u32) -> bool {
    norm_sq(velocity) < square(speed * radius)
}

/// A particle is at rest when its speed is below `EQUILIBRIUM_SPEED` radii.
pub open spec fn at_rest(velocity: Vector3, radius: u32) -> bool {
    slower_than(velocity, radius, EQUILIBRIUM_SPEED)
}

/// A particle at rest dies when its radius is below seven tenths of the
/// desired radius and the draw, as a fraction, exceeds the ratio of the two.
pub open spec fn dies(radius: u32, desired_radius: u32, draw: u32) -> bool {
    &&& 10 * radius < DEATH_COEFFICIENT * desired_radius
    &&& DEATH_COEFFICIENT * desired_radius * draw > 10 * radius * DRAW_RANGE
}

/// A particle is too large when its radius exceeds twelve tenths of the
/// desired radius.
pub open spec fn too_large(radius: u32, desired_radius: u32) -> bool {
    10 * radius > MAX_RADIUS_COEFFICIENT * desired_radius
}

/// A particle is crowded when its energy exceeds two tenths of the desired
/// energy while its radius exceeds the desired radius.
pub open spec fn crowded(radius: u32, energy: u64, desired_radius: u32) -> bool {
    10 * energy > FISSION_COEFFICIENT * DESIRED_REPULSION_ENERGY && radius > desired_radius
}

/// The fate of a particle where rest begins below `speed` radii: one in
/// motion moves on; one at rest dies if the draw says so, else splits if it
/// is crowded or too large, else moves on.
pub open spec fn fate_at_speed(
    velocity: Vector3,
    radius: u32,
    energy: u64,
    desired_radius: u32,
    draw: u32,
    speed: u32,
) -> Fate {
    if !slower_than(velocity, radius, speed) {
        Fate::Motion
    } else if dies(radius, desired_radius, draw) {
        Fate::Death
    } else if crowded(radius, energy, desired_radius) || too_large(radius, desired_radius) {
        Fate::Fission
    } else {
        Fate::Motion
    }
}

/// The fate of a particle, with rest below `EQUILIBRIUM_SPEED` radii.
pub open spec fn fate_of(
    velocity: Vector3,
    radius: u32,
    energy: u64,
    desired_radius: u32,
    draw: u32,
) -> Fate {
    fate_at_speed(velocity, radius, energy, desired_radius, draw, EQUILIBRIUM_SPEED)
}

/// The state of the generator of draws after one draw: the step of a linear
/// congruential generator on 64 bits.
pub open spec fn next_seed(seed: u64) -> u64 {
    ((seed * 6364136223846793005 + 1442695040888963407) % 0x1_0000_0000_0000_0000) as u64
}

/// The draw that a generator in the given state gives: the upper half of its
/// next state.
pub open spec fn draw_of(seed: u64) -> u32 {
    (next_seed(seed) / 0x1_0000_0000) as u32
}

/// Takes one draw from the generator and moves it on.
pub fn draw_from(generator: &mut u64) -> (draw: u32)
    ensures
        draw == draw_of(*old(generator)),
        *final(generator) == next_seed(*old(generator)),
{
    let wide: u128 = (*generator as u128) * 6364136223846793005u128 + 1442695040888963407u128;
    let next: u64 = (wide % 0x1_0000_0000_0000_0000u128) as u64;
    *generator = next;
    (next / 0x1_0000_0000) as u32
}

/// A seed for a generator of draws, made of two draws from the thread's
/// random generator.
pub fn random_seed() -> (seed: u64) {
    let high = random_draw();
    let low = random_draw();
    (high as u64) * 0x1_0000_0000 + (low as u64)
}

/// The clock after `passes` passes of `step` each, as far as it can count.
pub open spec fn clock_after(time: u64, step: u64, passes: int) -> u64 {
    if time + passes * step > u64::MAX {
        u64::MAX
    } else {
        (time + passes * step) as u64
    }
}

/// Draws a number from the thread's generator with `rand::random`. Every
/// value of `u32` may come back, and nothing more is claimed of it.
#[verifier::external_body]
fn random_draw() -> (draw: u32) {
    rand::random::<u32>()
}

/// Whether the speed of a particle is below `speed` radii.
pub fn is_slower_than(velocity: &Vector3, radius: u32, speed: u32) -> (slow: bool)
    ensures
        slow == slower_than(*velocity, radius, speed),
{
    assert(speed * radius <= 0xFFFF_FFFF * 0xFFFF_FFFF) by (nonlinear_arith)
        requires
            0 <= speed <= 0xFFFF_FFFF,
            0 <= radius <= 0xFFFF_FFFF,
    ;
    let limit: u64 = (speed as u64) * (radius as u64);
    assert(limit * limit <= 0xFFFF_FFFE_0000_0001 * 0xFFFF_FFFE_0000_0001) by (nonlinear_arith)
        requires
            0 <= limit <= 0xFFFF_FFFE_0000_0001,
    ;
    velocity.magnitude_squared() < (limit as u128) * (limit as u128)
}

/// Whether a particle is at rest.
pub fn is_at_rest(velocity: &Vector3, radius: u32) -> (rest: bool)
    ensures
        rest == at_rest(*velocity, radius),
{
    is_slower_than(velocity, radius, EQUILIBRIUM_SPEED)
}

/// Whether a particle at rest dies, for the given draw.
pub fn should_die_with(radius: u32, desired_radius: u32, draw: u32) -> (die: bool)
    ensures
        die == dies(radius, desired_radius, draw),
{
    let death_radius: u64 = DEATH_COEFFICIENT * (desired_radius as u64);
    let scaled_radius: u64 = 10 * (radius as u64);
    assert(death_radius * draw <= 0x6_FFFF_FFF9 * 0xFFFF_FFFF) by (nonlinear_arith)
        requires
            0 <= death_radius <= 0x6_FFFF_FFF9,
            0 <= draw <= 0xFFFF_FFFF,
    ;
    assert(scaled_radius * DRAW_RANGE <= 0x9_FFFF_FFF6 * 0x1_0000_0000) by (nonlinear_arith)
        requires
            0 <= scaled_radius <= 0x9_FFFF_FFF6,
            DRAW_RANGE == 0x1_0000_0000,
    ;
    scaled_radius < death_radius && (death_radius as u128) * (draw as u128) > (
    scaled_radius as u128) * (DRAW_RANGE as u128)
}

/// Whether a particle at rest dies. The chance of death grows from nothing
/// at seven tenths of the desired radius to all but certainty at radius
/// zero; the draw that decides comes from the thread's random generator.
pub fn should_die(radius: u32, desired_radius: u32) -> (die: bool)
    ensures
        exists|draw: u32| die == dies(radius, desired_radius, draw),
        10 * radius >= DEATH_COEFFICIENT * desired_radius ==> !die,
{
    let draw = random_draw();
    should_die_with(radius, desired_radius, draw)
}

/// Whether a particle has grown too large and must split.
pub fn should_fission_radius(radius: u32, desired_radius: u32) -> (split: bool)
    ensures
        split == too_large(radius, desired_radius),
{
    10 * (radius as u64) > MAX_RADIUS_COEFFICIENT * (desired_radius as u64)
}

/// Whether a particle is crowded enough to split.
pub fn should_fission_energy(radius: u32, energy: u64, desired_radius: u32) -> (split: bool)
    ensures
        split == crowded(radius, energy, desired_radius),
{
    (energy as u128) * 10 > (FISSION_COEFFICIENT * DESIRED_REPULSION_ENERGY) as u128 && radius
        > desired_radius
}

/// The fate of a particle for the given draw.
pub fn decide(
    velocity: &Vector3,
    radius: u32,
    energy: u64,
    desired_radius: u32,
    draw: u32,
) -> (fate: Fate)
    ensures
        fate == fate_of(*velocity, radius, energy, desired_radius, draw),
{
    if is_at_rest(velocity, radius) {
        if should_die_with(radius, desired_radius, draw) {
            return Fate::Death;
        }
        if should_fission_energy(radius, energy, desired_radius) || should_fission_radius(
            radius,
            desired_radius,
        ) {
            return Fate::Fission;
        }
    }
    Fate::Motion
}

/// The radius within which a particle of the given radius looks for
/// neighbours: `NEIGHBOUR_RADIUS` radii, or the largest radius there is.
pub open spec fn reach_of(radius: u32) -> u32 {
    if NEIGHBOUR_RADIUS * radius > u32::MAX {
        u32::MAX
    } else {
        (NEIGHBOUR_RADIUS * radius) as u32
    }
}

/// The radius within which a particle of the given radius looks for neighbours.
pub fn neighbour_reach(radius: u32) -> (reach: u32)
    ensures
        reach == reach_of(radius),
{
    if radius > u32::MAX / NEIGHBOUR_RADIUS {
        u32::MAX
    } else {
        NEIGHBOUR_RADIUS * radius
    }
}

/// The number of slots of a relaxation system.
pub const MAX_PARTICLE_COUNT: usize = 20000;

/// A cloud of particles without normals that starts from given positions.
pub struct RelaxationSystem {
    pub system: SamplingSystem<MAX_PARTICLE_COUNT>,
}

/// The samples that stand for positions without a direction.
pub open spec fn undirected(positions: Seq<Point3>) -> Seq<(Point3, Vector3)> {
    Seq::new(positions.len(), |k: int| (positions[k], Vector3 { x: 0, y: 0, z: 0 }))
}

impl RelaxationSystem {
    /// What the system shows of its particles: for each live slot, in the
    /// order of the list, the position and the radius.
    pub open spec fn shown(&self) -> Seq<(Point3, u32)> {
        Seq::new(
            self.system@.live.len(),
            |k: int|
                (
                    self.system@.front[self.system@.live[k] as int].position,
                    self.system@.front[self.system@.live[k] as int].radius,
                ),
        )
    }

    /// Creates a system with a particle at rest, of the given radius, at
    /// each of the positions.
    pub fn new(positions: Vec<Point3>, sample_radius: u32) -> (relaxation: Self)
        requires
            positions@.len() <= MAX_PARTICLE_COUNT,
        ensures
            relaxation.system.rebuilt(),
            relaxation.system@.live.len() == positions@.len(),
            relaxation.system@.t == 0,
            forall|k: int|
                0 <= k < positions@.len() ==> #[trigger] relaxation.shown()[k] == (
                    positions@[k],
                    sample_radius,
                ),
    {
        let mut samples: Vec<(Point3, Vector3)> = Vec::new();
        let mut k: usize = 0;
        while k < positions.len()
            invariant
                k <= positions@.len(),
                samples@.len() == k,
                forall|m: int| 0 <= m < k ==> samples@[m] == undirected(positions@)[m],
            decreases positions@.len() - k,
        {
            samples.push((positions[k], Vector3::zero()));
            k += 1;
        }
        assert(samples@ =~= undirected(positions@));
        let mut system = SamplingSystem::new();
        let ghost empty = system@;
        let refused = system.initial_sampling(sample_radius, samples);
        proof {
            lemma_seeded_from_nothing(empty, undirected(positions@), sample_radius, MAX_PARTICLE_COUNT);
        }
        let relaxation = RelaxationSystem { system };
        proof {
            assert forall|k: int| 0 <= k < positions@.len() implies #[trigger] relaxation.shown()[k]
                == (positions@[k], sample_radius) by {
                assert(undirected(positions@)[k].0 == positions@[k]);
            }
        }
        relaxation
    }

    /// The position and the radius of each live particle.
    pub fn positions(&self) -> (shown: Vec<(Point3, u32)>)
        requires
            self.system.wf(),
        ensures
            shown@ == self.shown(),
    {
        let full = self.system.positions();
        let mut shown: Vec<(Point3, u32)> = Vec::new();
        let mut k: usize = 0;
        while k < full.len()
            invariant
                k <= full@.len(),
                full@ == self.system@.positions(),
                shown@.len() == k,
                forall|m: int| 0 <= m < k ==> shown@[m] == self.shown()[m],
            decreases full@.len() - k,
        {
            let (position, _normal, radius) = full[k];
            shown.push((position, radius));
            k += 1;
        }
        assert(shown@ =~= self.shown());
        shown
    }

    /// Advances the system by one step of `UPDATE_ITERATIONS` passes. See
    /// `SamplingSystem::relax_step` for the functions that the caller hands in.
    pub fn update<E, S, A>(
        &mut self,
        desired_radius: u32,
        energy_of: &E,
        split: &S,
        advance: &A,
    ) -> (error: Option<SamplingError>) where
        E: Fn(Particle, &Vec<Particle>) -> u64,
        S: Fn(Particle) -> Option<(Particle, Particle)>,
        A: Fn(Particle, &Vec<Particle>) -> Option<Particle>,

        requires
            old(self).system.settled(),
            forall|p: Particle, n: &Vec<Particle>| energy_of.requires((p, n)),
            forall|p: Particle| split.requires((p,)),
            forall|p: Particle, n: &Vec<Particle>| advance.requires((p, n)),
        ensures
            final(self).system.rebuilt(),
            exists|passes: Seq<Seq<ParticleUpdate>>|
                passes.len() == UPDATE_ITERATIONS && final(self).system@ == (#[trigger] old(
                    self,
                ).system@.relaxed(passes, MAX_PARTICLE_COUNT)) && (error is Some) == old(
                    self,
                ).system@.relaxing_refuses(passes, MAX_PARTICLE_COUNT) && passes_follow_rules(
                    old(self).system@,
                    old(self).system.tree().contents(),
                    passes,
                    desired_radius,
                    energy_of,
                    split,
                    advance,
                    MAX_PARTICLE_COUNT,
                ),
            final(self).system@.t == clock_after(
                old(self).system@.t,
                ITERATION_T_STEP,
                UPDATE_ITERATIONS as int,
            ),
            error is None || error == Some(SamplingError::CapacityExceeded),
            old(self).system@.radii_positive() ==> final(self).system@.radii_positive(),
    {
        self.system.relax_step(desired_radius, energy_of, split, advance)
    }
}

} // verus!
