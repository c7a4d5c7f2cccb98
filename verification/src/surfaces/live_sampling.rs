//! The live sampling system: a cloud of particles in two buffers of fixed
//! size, of which one is read and the other written in each pass, the list of
//! slots that are alive, and a kd-tree over the positions that are read.

use vstd::prelude::*;
use crate::geometry::{Point3, Vector3};
use crate::relaxation::{
    at_rest, clock_after, dies, draw_from, draw_of, fate_of, is_at_rest, next_seed, random_seed,
    reach_of, should_die_with, should_fission_energy, should_fission_radius, Fate,
    ITERATION_T_STEP, UPDATE_ITERATIONS,
};
use crate::sequences::{
    lemma_filter_keeps_distinct, lemma_filter_members, lemma_push_to_distinct,
    lemma_remove_from_distinct, lemma_same_members,
};
use crate::slots::all_below;
use crate::spatial_indexer::kd_indexer::{built_contents, KdIndexer, KdTree, SplitAxis};
use crate::spatial_indexer::{near, Positioned, SpatialIndexer};
use crate::surfaces::buffer_allocator::{BufferAllocator, StackBufferAllocator};

verus! {

/// The number of particles that the system holds unless it is made for
/// another number.
pub const MAX_PARTICLE_COUNT: usize = 100000;

/// One sample of the surface.
#[derive(Copy, Clone, Debug, PartialEq, Eq, Structural)]
pub struct Particle {
    /// Where the particle is.
    pub position: Point3,
    /// How it moved in the last pass.
    pub velocity: Vector3,
    /// The direction of the surface's gradient where the particle is.
    pub normal: Vector3,
    /// The radius within which it repels its neighbours.
    pub radius: u32,
}

impl Positioned for Particle {
    open spec fn location(&self) -> Point3 {
        self.position
    }

    fn position(&self) -> (p: Point3) {
        self.position
    }
}

/// What one pass has found for one particle.
#[derive(Copy, Clone, Debug, PartialEq, Eq, Structural)]
pub enum ParticleUpdate {
    /// The particle dies: its slot becomes free.
    Kill,
    /// The particle lives on with this state.
    Live(Particle),
    /// The particle splits: the first child takes its slot, the second a
    /// free one.
    Fission(Particle, Particle),
    /// Nothing could be computed for the particle: it keeps its state.
    Skip,
}

/// What can go wrong while sampling. None of it stops the system.
#[derive(Copy, Clone, Debug, PartialEq, Eq, Structural)]
pub enum SamplingError {
    /// More particles were asked for than there are slots.
    CapacityExceeded,
    /// No point of the surface was found to start from.
    SeedingFailed,
}

/// What a sampling system is, to its caller.
pub struct SamplingView {
    /// The buffer that is read: the particles as the last pass left them.
    pub front: Seq<Particle>,
    /// The buffer that is written.
    pub back: Seq<Particle>,
    /// The slots that are alive, in the order in which they are listed.
    pub live: Seq<usize>,
    /// The time that has passed, in thousandths of a time unit.
    pub t: u64,
    /// The state of the generator of the draws that decide on deaths.
    pub seed: u64,
}

/// The particle that fills a slot which was never used: at the origin, at
/// rest, without a direction and without a radius.
pub open spec fn blank_particle() -> Particle {
    Particle {
        position: Point3 { x: 0, y: 0, z: 0 },
        velocity: Vector3 { x: 0, y: 0, z: 0 },
        normal: Vector3 { x: 0, y: 0, z: 0 },
        radius: 0,
    }
}

/// Whether `slot` is the lowest slot that is not alive.
pub open spec fn is_least_free(live: Seq<usize>, slot: usize) -> bool {
    !live.contains(slot) && forall|j: usize| j < slot ==> live.contains(j)
}

/// The lowest slot that is not alive.
pub open spec fn least_free(live: Seq<usize>) -> usize {
    choose|slot: usize| is_least_free(live, slot)
}

/// There is only one lowest free slot.
pub proof fn lemma_least_free_unique(live: Seq<usize>, slot: usize)
    requires
        is_least_free(live, slot),
    ensures
        least_free(live) == slot,
{
    let other = least_free(live);
    assert(is_least_free(live, other));
    if other < slot {
        assert(live.contains(other));
    }
    if slot < other {
        assert(live.contains(slot));
    }
}

impl SamplingView {
    /// The view after the update of the particle listed at `j`, in a system
    /// of `capacity` slots.
    pub open spec fn applied(self, j: int, update: ParticleUpdate, capacity: usize) -> SamplingView {
        let i = self.live[j] as int;
        match update {
            ParticleUpdate::Kill => SamplingView { live: self.live.remove(j), ..self },
            ParticleUpdate::Live(p) => SamplingView { back: self.back.update(i, p), ..self },
            ParticleUpdate::Skip => SamplingView {
                back: self.back.update(i, self.front[i]),
                ..self
            },
            ParticleUpdate::Fission(first, second) => if self.live.len() >= capacity {
                SamplingView { back: self.back.update(i, self.front[i]), ..self }
            } else {
                let sibling = least_free(self.live);
                SamplingView {
                    back: self.back.update(i, first).update(sibling as int, second),
                    live: self.live.push(sibling),
                    ..self
                }
            },
        }
    }

    /// The particles that the particle listed at `j` sees as neighbours among
    /// `indexed`, as the buffer that is read holds them.
    pub open spec fn seen_by(self, indexed: Seq<usize>, j: int) -> Seq<Particle> {
        self.neighbours(indexed, j).map_values(|k: usize| self.front[k as int])
    }

    /// The view after a sweep over the end of the list: `later` holds the
    /// updates of the particles listed at the last places, in the order of
    /// the list, and they are taken in from the last to the first.
    pub open spec fn swept(self, later: Seq<ParticleUpdate>, capacity: usize) -> SamplingView
        decreases later.len(),
    {
        if later.len() == 0 {
            self
        } else {
            self.swept(later.drop_first(), capacity).turned(self.live.len() - later.len()).applied(
                self.live.len() - later.len(),
                later[0],
                capacity,
            )
        }
    }

    /// The view after the fate of the particle listed at `j` is decided: a
    /// particle at rest has cost the generator one draw.
    pub open spec fn turned(self, j: int) -> SamplingView {
        let particle = self.front[self.live[j] as int];
        SamplingView {
            seed: if at_rest(particle.velocity, particle.radius) {
                next_seed(self.seed)
            } else {
                self.seed
            },
            ..self
        }
    }

    /// Whether every live particle, as the buffer that is read holds it, has
    /// a radius above nothing.
    pub open spec fn radii_positive(self) -> bool {
        forall|k: int| 0 <= k < self.live.len() ==> self.front[(#[trigger] self.live[k]) as int].radius > 0
    }

    /// The view after a pass is closed: the buffers have changed places.
    pub open spec fn swapped(self) -> SamplingView {
        SamplingView { front: self.back, back: self.front, ..self }
    }

    /// Whether a sweep refuses a fission: one of the updates is a fission
    /// that finds every slot taken when its turn comes.
    pub open spec fn sweep_refuses(self, later: Seq<ParticleUpdate>, capacity: usize) -> bool
        decreases later.len(),
    {
        if later.len() == 0 {
            false
        } else {
            self.sweep_refuses(later.drop_first(), capacity) || (later[0] is Fission && self.swept(
                later.drop_first(),
                capacity,
            ).live.len() >= capacity)
        }
    }

    /// Whether one of the passes refuses a fission.
    pub open spec fn relaxing_refuses(
        self,
        passes: Seq<Seq<ParticleUpdate>>,
        capacity: usize,
    ) -> bool
        decreases passes.len(),
    {
        if passes.len() == 0 {
            false
        } else {
            self.relaxing_refuses(passes.drop_last(), capacity) || self.relaxed(
                passes.drop_last(),
                capacity,
            ).sweep_refuses(passes.last(), capacity)
        }
    }

    /// The view after passes, one after the other: each is a sweep with the
    /// updates given for it, after which the buffers change places and the
    /// clock moves on.
    pub open spec fn relaxed(self, passes: Seq<Seq<ParticleUpdate>>, capacity: usize) -> SamplingView
        decreases passes.len(),
    {
        if passes.len() == 0 {
            self
        } else {
            self.relaxed(passes.drop_last(), capacity).swept(
                passes.last(),
                capacity,
            ).swapped().ticked()
        }
    }

    /// The view after a pass is closed: the clock has moved on, as far as it
    /// can count.
    pub open spec fn ticked(self) -> SamplingView {
        SamplingView {
            t: if self.t + ITERATION_T_STEP > u64::MAX {
                u64::MAX
            } else {
                (self.t + ITERATION_T_STEP) as u64
            },
            ..self
        }
    }

    /// What the system shows of its particles: for each live slot, in the
    /// order of the list, the position, the normal and the radius.
    pub open spec fn positions(self) -> Seq<(Point3, Vector3, u32)> {
        Seq::new(
            self.live.len(),
            |k: int|
                (
                    self.front[self.live[k] as int].position,
                    self.front[self.live[k] as int].normal,
                    self.front[self.live[k] as int].radius,
                ),
        )
    }

    /// The view after `samples` are taken in as particles of the given radius
    /// at rest, one by one, each into the lowest free slot and into both
    /// buffers, until the samples or the slots run out.
    pub open spec fn seeded(
        self,
        samples: Seq<(Point3, Vector3)>,
        radius: u32,
        capacity: usize,
    ) -> SamplingView
        decreases samples.len(),
    {
        if samples.len() == 0 || self.live.len() >= capacity {
            self
        } else {
            let slot = least_free(self.live);
            let particle = Particle {
                position: samples[0].0,
                velocity: Vector3 { x: 0, y: 0, z: 0 },
                normal: samples[0].1,
                radius,
            };
            SamplingView {
                front: self.front.update(slot as int, particle),
                back: self.back.update(slot as int, particle),
                live: self.live.push(slot),
                ..self
            }.seeded(samples.drop_first(), radius, capacity)
        }
    }

    /// The slots that the particle listed at `j` sees as neighbours among
    /// `indexed`: those within its reach, itself left out.
    pub open spec fn neighbours(self, indexed: Seq<usize>, j: int) -> Seq<usize> {
        let i = self.live[j];
        indexed.filter(
            near(self.front, self.front[i as int].position, reach_of(self.front[i as int].radius)),
        ).filter(|k: usize| k != i)
    }
}

/// A system that keeps samples of a surface in `N` slots.
pub struct SamplingSystem<const N: usize> {
    living_particles: Vec<usize>,
    position_index: KdIndexer,
    index_allocator: StackBufferAllocator<N>,
    particles_a: Vec<Particle>,
    particles_b: Vec<Particle>,
    t: u64,
    generator: u64,
}

impl<const N: usize> View for SamplingSystem<N> {
    type V = SamplingView;

    closed spec fn view(&self) -> SamplingView {
        SamplingView {
            front: self.particles_a@,
            back: self.particles_b@,
            live: self.living_particles@,
            t: self.t,
            seed: self.generator,
        }
    }
}

impl<const N: usize> SamplingSystem<N> {
    /// The allocator of the slots.
    pub closed spec fn slots(&self) -> StackBufferAllocator<N> {
        self.index_allocator
    }

    /// The tree over the positions.
    pub closed spec fn tree(&self) -> KdTree {
        self.position_index.tree()
    }

    /// The buffers and the list agree with the allocator: both buffers have
    /// `N` slots; a slot is alive exactly when the allocator has handed it
    /// out, and is listed once.
    pub open spec fn consistent(&self) -> bool {
        &&& self@.front.len() == N
        &&& self@.back.len() == N
        &&& self.slots().wf()
        &&& self@.live.no_duplicates()
        &&& all_below(self@.live, N as int)
        &&& forall|i: usize| self@.live.contains(i) <==> self.slots().allocated().contains(i)
        &&& self.slots().in_use() == self@.live.len()
    }

    /// What holds of the system at any time: it is consistent, and the tree
    /// fits the buffer that is read.
    pub open spec fn wf(&self) -> bool {
        &&& self.consistent()
        &&& self.tree().wf(self@.front)
    }

    /// What holds between passes: the tree holds exactly the live slots.
    pub open spec fn settled(&self) -> bool {
        &&& self.wf()
        &&& self.tree().contents().to_multiset() =~= self@.live.to_multiset()
    }

    /// What holds after a pass is closed: the system is settled and the
    /// tree is as a build over the buffer that is read leaves it.
    pub open spec fn rebuilt(&self) -> bool {
        &&& self.settled()
        &&& self.tree().well_built(self@.front, SplitAxis::X)
        &&& self.tree().contents() == reindexed(self@)
    }

    /// Creates a system without particles, whose draws start from a seed
    /// that the thread's random generator gives.
    pub fn new() -> (system: Self)
        ensures
            system.settled(),
            system@.live == Seq::<usize>::empty(),
            system@.t == 0,
            system@.front == system@.back,
            forall|i: int| 0 <= i < N ==> #[trigger] system@.front[i] == blank_particle(),
    {
        Self::with_seed(random_seed())
    }

    /// Creates a system without particles whose draws start from `seed`: two
    /// systems made with one seed that are given the same results draw alike.
    pub fn with_seed(seed: u64) -> (system: Self)
        ensures
            system.settled(),
            system@.live == Seq::<usize>::empty(),
            system@.t == 0,
            system@.seed == seed,
            system@.front == system@.back,
            forall|i: int| 0 <= i < N ==> #[trigger] system@.front[i] == blank_particle(),
    {
        let blank = Particle {
            position: Point3 { x: 0, y: 0, z: 0 },
            velocity: Vector3 { x: 0, y: 0, z: 0 },
            normal: Vector3 { x: 0, y: 0, z: 0 },
            radius: 0,
        };
        let mut particles_a: Vec<Particle> = Vec::new();
        let mut particles_b: Vec<Particle> = Vec::new();
        let mut k: usize = 0;
        while k < N
            invariant
                k <= N,
                blank == blank_particle(),
                particles_a@.len() == k,
                particles_b@ == particles_a@,
                forall|i: int| 0 <= i < k ==> #[trigger] particles_a@[i] == blank_particle(),
            decreases N - k,
        {
            particles_a.push(blank);
            particles_b.push(blank);
            k += 1;
        }
        let system = SamplingSystem {
            living_particles: Vec::new(),
            position_index: KdIndexer::new(),
            index_allocator: StackBufferAllocator::new(),
            particles_a,
            particles_b,
            t: 0,
            generator: seed,
        };
        proof {
            assert(system.tree().contents() =~= Seq::<usize>::empty());
            assert(system@.live =~= Seq::<usize>::empty());
            assert(system.tree().wf(system@.front));
        }
        system
    }

    /// The number of particles that are alive.
    pub fn live_count(&self) -> (count: usize)
        ensures
            count == self@.live.len(),
    {
        self.living_particles.len()
    }

    /// The number of slots.
    pub fn capacity(&self) -> (slots: usize)
        ensures
            slots == N,
    {
        N
    }

    /// The time that has passed, in thousandths of a time unit.
    pub fn time(&self) -> (t: u64)
        ensures
            t == self@.t,
    {
        self.t
    }

    /// The state of the generator of draws.
    pub fn seed(&self) -> (seed: u64)
        ensures
            seed == self@.seed,
    {
        self.generator
    }

    /// The slots that are alive, in the order in which they are listed.
    pub fn live_indices(&self) -> (live: Vec<usize>)
        ensures
            live@ == self@.live,
    {
        let live = self.living_particles.clone();
        assert(live@ =~= self.living_particles@);
        live
    }

    /// The particle in `slot` as the last pass left it, where there is such
    /// a slot.
    pub fn particle(&self, slot: usize) -> (found: Option<Particle>)
        ensures
            found == if slot < self@.front.len() {
                Some(self@.front[slot as int])
            } else {
                None
            },
    {
        if slot < self.particles_a.len() {
            Some(self.particles_a[slot])
        } else {
            None
        }
    }

    /// The position, the normal and the radius of each live particle.
    pub fn positions(&self) -> (shown: Vec<(Point3, Vector3, u32)>)
        requires
            self.wf(),
        ensures
            shown@ == self@.positions(),
    {
        let mut shown: Vec<(Point3, Vector3, u32)> = Vec::new();
        let mut k: usize = 0;
        while k < self.living_particles.len()
            invariant
                k <= self.living_particles@.len(),
                self.wf(),
                shown@.len() == k,
                forall|m: int| 0 <= m < k ==> shown@[m] == self@.positions()[m],
            decreases self.living_particles@.len() - k,
        {
            let i: usize = self.living_particles[k];
            assert(self@.live[k as int] < N);
            let particle = self.particles_a[i];
            shown.push((particle.position, particle.normal, particle.radius));
            k += 1;
        }
        assert(shown@ =~= self@.positions());
        shown
    }
}

impl<const N: usize> SamplingSystem<N> {
    /// Takes in the result of a pass for the particle listed at `j`. A kill
    /// frees the slot and unlists it; a fission gives the first child the
    /// parent's slot and the second the lowest free slot, which is listed last;
    /// where no slot is free the parent is kept as it is and the shortage
    /// is reported. All new state goes to the buffer that is written.
    pub fn apply_update(&mut self, j: usize, update: ParticleUpdate) -> (error: Option<
        SamplingError,
    >)
        requires
            old(self).wf(),
            j < old(self)@.live.len(),
        ensures
            final(self).wf(),
            final(self)@ == old(self)@.applied(j as int, update, N),
            final(self).tree() == old(self).tree(),
            error == if update is Fission && old(self)@.live.len() >= N {
                Some(SamplingError::CapacityExceeded)
            } else {
                None
            },
    {
        let ghost before = self@;
        let i: usize = self.living_particles[j];
        assert(before.live[j as int] < N);
        assert(before.live.contains(i));
        proof {
            crate::slots::lemma_distinct_below_len(before.live, N as int);
        }
        match update {
            ParticleUpdate::Kill => {
                self.living_particles.remove(j);
                self.index_allocator.remove(i);
                proof {
                    lemma_remove_from_distinct(before.live, j as int);
                    assert(self@.live =~= before.live.remove(j as int));
                    assert forall|k: int| 0 <= k < self@.live.len() implies (
                    #[trigger] self@.live[k]) < N by {
                        assert(self@.live.contains(self@.live[k]));
                        assert(before.live.contains(self@.live[k]));
                        let m = choose|m: int|
                            0 <= m < before.live.len() && before.live[m] == self@.live[k];
                    }
                    assert forall|x: usize| self@.live.contains(x) <==> self.slots().allocated().contains(
                        x,
                    ) by {
                        assert(before.live.contains(x) <==> old(self).slots().allocated().contains(x));
                    }
                }
                None
            },
            ParticleUpdate::Live(particle) => {
                self.particles_b.set(i, particle);
                None
            },
            ParticleUpdate::Skip => {
                let kept = self.particles_a[i];
                self.particles_b.set(i, kept);
                None
            },
            ParticleUpdate::Fission(first, second) => {
                if self.index_allocator.is_full() {
                    let kept = self.particles_a[i];
                    self.particles_b.set(i, kept);
                    Some(SamplingError::CapacityExceeded)
                } else {
                    self.particles_b.set(i, first);
                    let sibling_i: usize = self.index_allocator.insert();
                    self.particles_b.set(sibling_i, second);
                    self.living_particles.push(sibling_i);
                    proof {
                        assert(is_least_free(before.live, sibling_i));
                        lemma_least_free_unique(before.live, sibling_i);
                        lemma_push_to_distinct(before.live, sibling_i);
                        assert(self@.live =~= before.live.push(sibling_i));
                        assert forall|x: usize| self@.live.contains(x) <==> self.slots().allocated().contains(
                            x,
                        ) by {
                            assert(before.live.contains(x) <==> old(self).slots().allocated().contains(
                                x,
                            ));
                        }
                    }
                    None
                }
            },
        }
    }

    /// Closes a pass: the buffer that was written becomes the one that is
    /// read, the clock moves on by `ITERATION_T_STEP`, and the tree is built
    /// anew over the live slots.
    pub fn end_pass(&mut self)
        requires
            old(self).wf(),
        ensures
            final(self).rebuilt(),
            final(self)@ == old(self)@.swapped().ticked(),
    {
        self.t = if self.t > u64::MAX - ITERATION_T_STEP {
            u64::MAX
        } else {
            self.t + ITERATION_T_STEP
        };
        std::mem::swap(&mut self.particles_a, &mut self.particles_b);
        let indices = self.living_particles.clone();
        assert(indices@ =~= self.living_particles@);
        self.position_index.reindex(self.particles_a.as_slice(), indices);
    }

    /// Takes in samples as particles at rest with the given radius: each
    /// goes into the lowest free slot, in both buffers, and is listed. Where
    /// the slots run out the remaining samples are dropped and the shortage is
    /// reported. The tree is built anew.
    pub fn initial_sampling(&mut self, desired_radius: u32, samples: Vec<(Point3, Vector3)>) -> (error:
        Option<SamplingError>)
        requires
            old(self).wf(),
        ensures
            final(self).rebuilt(),
            final(self)@ == old(self)@.seeded(samples@, desired_radius, N),
            final(self)@.t == old(self)@.t,
            error == if old(self)@.live.len() + samples@.len() > N {
                Some(SamplingError::CapacityExceeded)
            } else {
                None
            },
    {
        let ghost before = self@;
        let ghost start = self@.live.len();
        proof {
            crate::slots::lemma_distinct_below_len(before.live, N as int);
        }
        assert(samples@.skip(0) =~= samples@);
        let mut k: usize = 0;
        while k < samples.len() && !self.index_allocator.is_full()
            invariant
                k <= samples@.len(),
                self.consistent(),
                self@.live.len() == start + k,
                self@.live.len() <= N,
                self@.t == before.t,
                self@.seeded(samples@.skip(k as int), desired_radius, N) == before.seeded(
                    samples@,
                    desired_radius,
                    N,
                ),
            decreases samples@.len() - k,
        {
            let ghost current = self@;
            let ghost handed_out = self.slots().allocated();
            let (p, normal) = samples[k];
            let i: usize = self.index_allocator.insert();
            self.living_particles.push(i);
            let particle = Particle {
                position: p,
                velocity: Vector3 { x: 0, y: 0, z: 0 },
                normal,
                radius: desired_radius,
            };
            self.particles_a.set(i, particle);
            self.particles_b.set(i, particle);
            proof {
                assert(is_least_free(current.live, i));
                lemma_least_free_unique(current.live, i);
                lemma_push_to_distinct(current.live, i);
                assert(self@.live =~= current.live.push(i));
                assert forall|x: usize| self@.live.contains(x) <==> self.slots().allocated().contains(
                    x,
                ) by {
                    assert(current.live.contains(x) <==> handed_out.contains(x));
                }
                let rest = samples@.skip(k as int);
                assert(rest[0] == samples@[k as int]);
                assert(rest.drop_first() =~= samples@.skip(k + 1));
            }
            k += 1;
        }
        proof {
            if k < samples@.len() {
                assert(self@.live.len() >= N);
            } else {
                assert(samples@.skip(k as int).len() == 0);
            }
        }
        let indices = self.living_particles.clone();
        assert(indices@ =~= self.living_particles@);
        self.position_index.reindex(self.particles_a.as_slice(), indices);
        if k < samples.len() {
            Some(SamplingError::CapacityExceeded)
        } else {
            None
        }
    }

    /// The slots that the particle listed at `j` sees as neighbours: the
    /// slots of the tree within `NEIGHBOUR_RADIUS` radii of it, itself left out.
    pub fn neighbour_indices(&self, j: usize) -> (found: Vec<usize>)
        requires
            self.wf(),
            j < self@.live.len(),
        ensures
            found@ == self@.neighbours(self.tree().contents(), j as int),
    {
        let i: usize = self.living_particles[j];
        assert(self@.live[j as int] < N);
        let particle = self.particles_a[i];
        let neighbour_indices = self.position_index.get_indices_within(
            self.particles_a.as_slice(),
            particle.position,
            crate::relaxation::neighbour_reach(particle.radius),
        );
        let ghost others = |k: usize| k != i;
        let mut found: Vec<usize> = Vec::new();
        proof {
            assert(neighbour_indices@.take(0).filter(others) =~= Seq::<usize>::empty()) by {
                reveal(Seq::filter);
            }
        }
        let mut k: usize = 0;
        while k < neighbour_indices.len()
            invariant
                k <= neighbour_indices@.len(),
                others == (|k: usize| k != i),
                found@ == neighbour_indices@.take(k as int).filter(others),
            decreases neighbour_indices@.len() - k,
        {
            let n: usize = neighbour_indices[k];
            proof {
                neighbour_indices@.lemma_take_succ_push(k as int);
                neighbour_indices@.take(k as int).lemma_filter_push(n, others);
            }
            if n != i {
                found.push(n);
            }
            k += 1;
        }
        proof {
            neighbour_indices@.lemma_take_len();
        }
        found
    }
}

/// The update that follows from a particle's fate and from what could be
/// computed for it: death kills; fission needs the two children and motion
/// the moved particle, each with a radius above nothing, and where that is
/// missing the particle is skipped.
pub open spec fn update_for(
    fate: Fate,
    children: Option<(Particle, Particle)>,
    moved: Option<Particle>,
) -> ParticleUpdate {
    match fate {
        Fate::Death => ParticleUpdate::Kill,
        Fate::Fission => match children {
            Some((first, second)) => if first.radius > 0 && second.radius > 0 {
                ParticleUpdate::Fission(first, second)
            } else {
                ParticleUpdate::Skip
            },
            None => ParticleUpdate::Skip,
        },
        Fate::Motion => match moved {
            Some(particle) => if particle.radius > 0 {
                ParticleUpdate::Live(particle)
            } else {
                ParticleUpdate::Skip
            },
            None => ParticleUpdate::Skip,
        },
    }
}

/// The update that follows from a particle's fate and from what could be
/// computed for it.
pub fn resolve(fate: Fate, children: Option<(Particle, Particle)>, moved: Option<Particle>) -> (update:
    ParticleUpdate)
    ensures
        update == update_for(fate, children, moved),
{
    match fate {
        Fate::Death => ParticleUpdate::Kill,
        Fate::Fission => match children {
            Some((first, second)) => if first.radius > 0 && second.radius > 0 {
                ParticleUpdate::Fission(first, second)
            } else {
                ParticleUpdate::Skip
            },
            None => ParticleUpdate::Skip,
        },
        Fate::Motion => match moved {
            Some(particle) => if particle.radius > 0 {
                ParticleUpdate::Live(particle)
            } else {
                ParticleUpdate::Skip
            },
            None => ParticleUpdate::Skip,
        },
    }
}

/// Whether an update leaves every particle that it writes with a radius
/// above nothing.
pub open spec fn keeps_radii(update: ParticleUpdate) -> bool {
    match update {
        ParticleUpdate::Live(p) => p.radius > 0,
        ParticleUpdate::Fission(first, second) => first.radius > 0 && second.radius > 0,
        _ => true,
    }
}

/// Whether `update` is what the rules of relaxation make of a particle, given
/// the draw that decides on its death and what the caller's functions gave:
/// the energy is asked for where the particle rests and does not die, the
/// children where it splits, the moved particle where it moves on.
pub open spec fn ruled<E, S, A>(
    particle: Particle,
    desired_radius: u32,
    energy_of: &E,
    split: &S,
    advance: &A,
    update: ParticleUpdate,
    draw: u32,
    neighbours: Vec<Particle>,
    energy: u64,
    children: Option<(Particle, Particle)>,
    moved: Option<Particle>,
) -> bool where
    E: Fn(Particle, &Vec<Particle>) -> u64,
    S: Fn(Particle) -> Option<(Particle, Particle)>,
    A: Fn(Particle, &Vec<Particle>) -> Option<Particle>,
 {
    let fate = fate_of(particle.velocity, particle.radius, energy, desired_radius, draw);
    &&& at_rest(particle.velocity, particle.radius) && !dies(particle.radius, desired_radius, draw)
        ==> energy_of.ensures((particle, &neighbours), energy)
    &&& fate == Fate::Fission ==> split.ensures((particle,), children)
    &&& fate == Fate::Motion ==> advance.ensures((particle, &neighbours), moved)
    &&& update == update_for(fate, children, moved)
}

/// Whether `update` is what the rules of relaxation make of a particle that
/// sees the neighbours `seen`, with the draw that a generator in the state
/// `seed` gives, for some results of the caller's functions on the particle
/// and these neighbours.
pub open spec fn follows_rules<E, S, A>(
    particle: Particle,
    seen: Seq<Particle>,
    desired_radius: u32,
    seed: u64,
    energy_of: &E,
    split: &S,
    advance: &A,
    update: ParticleUpdate,
) -> bool where
    E: Fn(Particle, &Vec<Particle>) -> u64,
    S: Fn(Particle) -> Option<(Particle, Particle)>,
    A: Fn(Particle, &Vec<Particle>) -> Option<Particle>,
 {
    exists|
        neighbours: Vec<Particle>,
        energy: u64,
        children: Option<(Particle, Particle)>,
        moved: Option<Particle>,
    |
        neighbours@ == seen && #[trigger] ruled(
            particle,
            desired_radius,
            energy_of,
            split,
            advance,
            update,
            draw_of(seed),
            neighbours,
            energy,
            children,
            moved,
        )
}

/// Whether the updates of a pass are what the rules make of the particles:
/// there is one for each listed particle, and the one for the particle
/// listed at `j` follows the rules for that particle, for the neighbours that
/// it sees among `indexed`, and for the state in which the sweep over the
/// particles listed after it has left the generator.
#[verifier::opaque]
pub open spec fn pass_follows_rules<E, S, A>(
    at: SamplingView,
    indexed: Seq<usize>,
    updates: Seq<ParticleUpdate>,
    desired_radius: u32,
    energy_of: &E,
    split: &S,
    advance: &A,
    capacity: usize,
) -> bool where
    E: Fn(Particle, &Vec<Particle>) -> u64,
    S: Fn(Particle) -> Option<(Particle, Particle)>,
    A: Fn(Particle, &Vec<Particle>) -> Option<Particle>,
 {
    &&& updates.len() == at.live.len()
    &&& forall|j: int|
        0 <= j < updates.len() ==> follows_rules(
            at.front[at.live[j] as int],
            at.seen_by(indexed, j),
            desired_radius,
            at.swept(updates.skip(j + 1), capacity).seed,
            energy_of,
            split,
            advance,
            #[trigger] updates[j],
        )
}

/// The slots of the tree that a pass leaves behind, in the order in which a
/// query visits them: the tree is built anew over the live slots.
pub open spec fn reindexed(at: SamplingView) -> Seq<usize> {
    built_contents(at.front, at.live, SplitAxis::X, 3)
}

/// Whether the updates of a pass follow the rules for neighbours seen in a
/// tree that was built anew over the live slots.
pub open spec fn later_pass_follows_rules<E, S, A>(
    at: SamplingView,
    updates: Seq<ParticleUpdate>,
    desired_radius: u32,
    energy_of: &E,
    split: &S,
    advance: &A,
    capacity: usize,
) -> bool where
    E: Fn(Particle, &Vec<Particle>) -> u64,
    S: Fn(Particle) -> Option<(Particle, Particle)>,
    A: Fn(Particle, &Vec<Particle>) -> Option<Particle>,
 {
    pass_follows_rules(
        at,
        reindexed(at),
        updates,
        desired_radius,
        energy_of,
        split,
        advance,
        capacity,
    )
}

/// Whether the pass at place `k` follows the rules, in the view that the
/// passes before it have left: the first for the neighbours seen among
/// `indexed`, every later one for those seen among the live slots.
pub open spec fn nth_pass_follows_rules<E, S, A>(
    view: SamplingView,
    indexed: Seq<usize>,
    passes: Seq<Seq<ParticleUpdate>>,
    k: int,
    desired_radius: u32,
    energy_of: &E,
    split: &S,
    advance: &A,
    capacity: usize,
) -> bool where
    E: Fn(Particle, &Vec<Particle>) -> u64,
    S: Fn(Particle) -> Option<(Particle, Particle)>,
    A: Fn(Particle, &Vec<Particle>) -> Option<Particle>,
 {
    let at = view.relaxed(passes.take(k), capacity);
    if k == 0 {
        pass_follows_rules(
            at,
            indexed,
            passes[k],
            desired_radius,
            energy_of,
            split,
            advance,
            capacity,
        )
    } else {
        later_pass_follows_rules(
            at,
            passes[k],
            desired_radius,
            energy_of,
            split,
            advance,
            capacity,
        )
    }
}

/// Whether every pass follows the rules.
pub open spec fn passes_follow_rules<E, S, A>(
    view: SamplingView,
    indexed: Seq<usize>,
    passes: Seq<Seq<ParticleUpdate>>,
    desired_radius: u32,
    energy_of: &E,
    split: &S,
    advance: &A,
    capacity: usize,
) -> bool where
    E: Fn(Particle, &Vec<Particle>) -> u64,
    S: Fn(Particle) -> Option<(Particle, Particle)>,
    A: Fn(Particle, &Vec<Particle>) -> Option<Particle>,
 {
    forall|k: int|
        0 <= k < passes.len() ==> #[trigger] nth_pass_follows_rules(
            view,
            indexed,
            passes,
            k,
            desired_radius,
            energy_of,
            split,
            advance,
            capacity,
        )
}

/// Decides what becomes of a particle among its neighbours by the rules of
/// relaxation, and has the state that goes with its fate computed by the
/// caller's functions. The draw that decides on the death of a particle at
/// rest is taken from the generator.
pub fn judge<E, S, A>(
    particle: Particle,
    neighbours: Vec<Particle>,
    desired_radius: u32,
    generator: &mut u64,
    energy_of: &E,
    split: &S,
    advance: &A,
) -> (update: ParticleUpdate) where
    E: Fn(Particle, &Vec<Particle>) -> u64,
    S: Fn(Particle) -> Option<(Particle, Particle)>,
    A: Fn(Particle, &Vec<Particle>) -> Option<Particle>,

    requires
        forall|p: Particle, n: &Vec<Particle>| energy_of.requires((p, n)),
        forall|p: Particle| split.requires((p,)),
        forall|p: Particle, n: &Vec<Particle>| advance.requires((p, n)),
    ensures
        follows_rules(
            particle,
            neighbours@,
            desired_radius,
            *old(generator),
            energy_of,
            split,
            advance,
            update,
        ),
        keeps_radii(update),
        *final(generator) == if at_rest(particle.velocity, particle.radius) {
            next_seed(*old(generator))
        } else {
            *old(generator)
        },
{
    let ghost seed = *generator;
    if is_at_rest(&particle.velocity, particle.radius) {
        let draw = draw_from(generator);
        if should_die_with(particle.radius, desired_radius, draw) {
            let update = resolve(Fate::Death, None, None);
            proof {
                assert(ruled(
                    particle,
                    desired_radius,
                    energy_of,
                    split,
                    advance,
                    update,
                    draw_of(seed),
                    neighbours,
                    0,
                    None,
                    None,
                ));
            }
            return update;
        }
        let energy = energy_of(particle, &neighbours);
        if should_fission_energy(particle.radius, energy, desired_radius) || should_fission_radius(
            particle.radius,
            desired_radius,
        ) {
            let children = split(particle);
            let update = resolve(Fate::Fission, children, None);
            proof {
                assert(ruled(
                    particle,
                    desired_radius,
                    energy_of,
                    split,
                    advance,
                    update,
                    draw_of(seed),
                    neighbours,
                    energy,
                    children,
                    None,
                ));
            }
            return update;
        }
        let moved = advance(particle, &neighbours);
        let update = resolve(Fate::Motion, None, moved);
        proof {
            assert(ruled(
                particle,
                desired_radius,
                energy_of,
                split,
                advance,
                update,
                draw_of(seed),
                neighbours,
                energy,
                None,
                moved,
            ));
        }
        update
    } else {
        let moved = advance(particle, &neighbours);
        let update = resolve(Fate::Motion, None, moved);
        proof {
            assert(ruled(
                particle,
                desired_radius,
                energy_of,
                split,
                advance,
                update,
                draw_of(seed),
                neighbours,
                0,
                None,
                moved,
            ));
        }
        update
    }
}

impl<const N: usize> SamplingSystem<N> {
    /// The particles that the particle listed at `j` sees as neighbours, as
    /// the buffer that is read holds them.
    pub fn neighbours(&self, j: usize) -> (found: Vec<Particle>)
        requires
            self.wf(),
            j < self@.live.len(),
        ensures
            found@ == self@.seen_by(self.tree().contents(), j as int),
            all_below(self@.neighbours(self.tree().contents(), j as int), N as int),
    {
        let indices = self.neighbour_indices(j);
        proof {
            let i = self@.live[j as int];
            let held = self.tree().contents();
            let reach = near(
                self@.front,
                self@.front[i as int].position,
                reach_of(self@.front[i as int].radius),
            );
            assert forall|k: int| 0 <= k < indices@.len() implies (#[trigger] indices@[k]) < N by {
                let x = indices@[k];
                assert(indices@.contains(x));
                held.filter(reach).lemma_filter_contains_rev(|m: usize| m != i, x);
                let at = choose|at: int|
                    0 <= at < held.filter(reach).len() && held.filter(reach)[at] == x;
                held.lemma_filter_pred(reach, at);
            }
        }
        let mut found: Vec<Particle> = Vec::new();
        let mut k: usize = 0;
        while k < indices.len()
            invariant
                k <= indices@.len(),
                self@.front.len() == N,
                forall|m: int| 0 <= m < indices@.len() ==> (#[trigger] indices@[m]) < N,
                found@.len() == k,
                forall|m: int| 0 <= m < k ==> found@[m] == self@.front[indices@[m] as int],
            decreases indices@.len() - k,
        {
            let n: usize = indices[k];
            assert(indices@[k as int] < N);
            found.push(self.particles_a[n]);
            k += 1;
        }
        assert(found@ =~= self@.seen_by(self.tree().contents(), j as int));
        found
    }

    /// Makes one pass over the live particles, from the end of the list to
    /// its start. For each it gathers the neighbours, decides the fate by the
    /// rules of relaxation, has the state that goes with the fate computed by
    /// the caller's functions, and takes the result in; then it closes the
    /// pass. `energy_of` gives the repulsion energy of a particle among its
    /// neighbours, `split` the two children of a particle, `advance` the
    /// particle after its motion; the last two give nothing where nothing
    /// can be computed.
    pub fn pass<E, S, A>(
        &mut self,
        desired_radius: u32,
        energy_of: &E,
        split: &S,
        advance: &A,
    ) -> (error: Option<SamplingError>) where
        E: Fn(Particle, &Vec<Particle>) -> u64,
        S: Fn(Particle) -> Option<(Particle, Particle)>,
        A: Fn(Particle, &Vec<Particle>) -> Option<Particle>,

        requires
            old(self).wf(),
            forall|p: Particle, n: &Vec<Particle>| energy_of.requires((p, n)),
            forall|p: Particle| split.requires((p,)),
            forall|p: Particle, n: &Vec<Particle>| advance.requires((p, n)),
        ensures
            final(self).rebuilt(),
            pass_made(
                old(self)@,
                old(self).tree().contents(),
                final(self)@,
                error is Some,
                desired_radius,
                energy_of,
                split,
                advance,
                N,
            ),
            final(self)@.t == old(self)@.ticked().t,
            error is None || error == Some(SamplingError::CapacityExceeded),
            old(self)@.radii_positive() ==> final(self)@.radii_positive(),
    {
        let ghost before = self@;
        let ghost indexed = self.tree().contents();
        let ghost mut later: Seq<ParticleUpdate> = Seq::empty();
        let mut error: Option<SamplingError> = None;
        let mut j: usize = self.living_particles.len();
        while j > 0
            invariant
                self.wf(),
                j <= self@.live.len(),
                j <= before.live.len(),
                later.len() == before.live.len() - j,
                self@ == before.swept(later, N),
                (error is Some) == before.sweep_refuses(later, N),
                self@.front == before.front,
                self@.t == before.t,
                self.tree() == old(self).tree(),
                indexed == old(self).tree().contents(),
                forall|k: int| 0 <= k < j ==> self@.live[k] == before.live[k],
                forall|k: int|
                    0 <= k < later.len() ==> follows_rules(
                        before.front[before.live[j + k] as int],
                        before.seen_by(indexed, j + k),
                        desired_radius,
                        before.swept(later.skip(k + 1), N).seed,
                        energy_of,
                        split,
                        advance,
                        #[trigger] later[k],
                    ),
                before.radii_positive() ==> forall|k: int|
                    j <= k < self@.live.len() ==> self@.back[(#[trigger] self@.live[k]) as int].radius
                        > 0,
                error is None || error == Some(SamplingError::CapacityExceeded),
                forall|p: Particle, n: &Vec<Particle>| energy_of.requires((p, n)),
                forall|p: Particle| split.requires((p,)),
                forall|p: Particle, n: &Vec<Particle>| advance.requires((p, n)),
            decreases j,
        {
            j -= 1;
            let i: usize = self.living_particles[j];
            assert(self@.live[j as int] < N);
            let particle = self.particles_a[i];
            let neighbours = self.neighbours(j);
            let ghost listed = self@.live;
            let ghost entered = self@;
            proof {
                assert(self@.neighbours(self.tree().contents(), j as int) == before.neighbours(
                    indexed,
                    j as int,
                ));
                assert(self@.seen_by(self.tree().contents(), j as int) == before.seen_by(
                    indexed,
                    j as int,
                ));
            }
            let update = judge(
                particle,
                neighbours,
                desired_radius,
                &mut self.generator,
                energy_of,
                split,
                advance,
            );
            assert(self@ == entered.turned(j as int));
            let ghost turned = self@;
            let refused = self.apply_update(j, update);
            if refused.is_some() {
                error = refused;
            }
            proof {
                let sooner = seq![update] + later;
                assert(sooner.drop_first() =~= later);
                assert(sooner[0] == update);
                assert(sooner.skip(1) =~= later);
                assert forall|k: int| 0 <= k < sooner.len() implies follows_rules(
                    before.front[before.live[j + k] as int],
                    before.seen_by(indexed, j + k),
                    desired_radius,
                    before.swept(sooner.skip(k + 1), N).seed,
                    energy_of,
                    split,
                    advance,
                    #[trigger] sooner[k],
                ) by {
                    if k > 0 {
                        assert(sooner[k] == later[k - 1]);
                        assert(sooner.skip(k + 1) =~= later.skip(k));
                    }
                }
                assert forall|k: int| 0 <= k < j implies self@.live[k] == before.live[k] by {
                    assert(listed[k] == before.live[k]);
                }
                if before.radii_positive() {
                    crate::slots::lemma_distinct_below_len(listed, N as int);
                    assert(before.front[before.live[j as int] as int].radius > 0);
                    assert forall|k: int| j <= k < self@.live.len() implies self@.back[(
                    #[trigger] self@.live[k]) as int].radius > 0 by {
                        lemma_written_radii(turned, j as int, update, N, k);
                    }
                }
                later = sooner;
            }
        }
        self.end_pass();
        proof {
            assert(later.skip(later.len() as int) =~= Seq::<ParticleUpdate>::empty());
            assert(self@ == before.swept(later, N).swapped().ticked());
            assert forall|k: int| 0 <= k < later.len() implies follows_rules(
                before.front[before.live[k] as int],
                before.seen_by(indexed, k),
                desired_radius,
                before.swept(later.skip(k + 1), N).seed,
                energy_of,
                split,
                advance,
                #[trigger] later[k],
            ) by {
                assert(before.live[0 + k] == before.live[k]);
            }
            assert(pass_follows_rules(
                before,
                indexed,
                later,
                desired_radius,
                energy_of,
                split,
                advance,
                N,
            )) by {
                reveal(pass_follows_rules);
            }
        }
        error
    }

    /// Makes `iterations` passes. With no pass to make nothing changes.
    pub fn relax<E, S, A>(
        &mut self,
        iterations: usize,
        desired_radius: u32,
        energy_of: &E,
        split: &S,
        advance: &A,
    ) -> (error: Option<SamplingError>) where
        E: Fn(Particle, &Vec<Particle>) -> u64,
        S: Fn(Particle) -> Option<(Particle, Particle)>,
        A: Fn(Particle, &Vec<Particle>) -> Option<Particle>,

        requires
            old(self).settled(),
            forall|p: Particle, n: &Vec<Particle>| energy_of.requires((p, n)),
            forall|p: Particle| split.requires((p,)),
            forall|p: Particle, n: &Vec<Particle>| advance.requires((p, n)),
        ensures
            final(self).settled(),
            iterations > 0 ==> final(self).rebuilt(),
            exists|passes: Seq<Seq<ParticleUpdate>>|
                passes.len() == iterations && final(self)@ == (#[trigger] old(self)@.relaxed(
                    passes,
                    N,
                )) && (error is Some) == old(self)@.relaxing_refuses(passes, N)
                    && passes_follow_rules(
                    old(self)@,
                    old(self).tree().contents(),
                    passes,
                    desired_radius,
                    energy_of,
                    split,
                    advance,
                    N,
                ),
            final(self)@.t == clock_after(old(self)@.t, ITERATION_T_STEP, iterations as int),
            iterations == 0 ==> final(self)@ == old(self)@ && final(self).tree() == old(self).tree()
                && error is None,
            error is None || error == Some(SamplingError::CapacityExceeded),
            old(self)@.radii_positive() ==> final(self)@.radii_positive(),
    {
        let ghost start = self@;
        let ghost indexed = self.tree().contents();
        let mut error: Option<SamplingError> = None;
        let mut done: usize = 0;
        proof {
            lemma_no_passes_made(
                start,
                indexed,
                desired_radius,
                energy_of,
                split,
                advance,
                N,
            );
        }
        while done < iterations
            invariant
                done <= iterations,
                self.settled(),
                done > 0 ==> self.rebuilt(),
                passes_made(
                    start,
                    indexed,
                    self@,
                    error is Some,
                    done as int,
                    desired_radius,
                    energy_of,
                    split,
                    advance,
                    N,
                ),
                self@.t == clock_after(start.t, ITERATION_T_STEP, done as int),
                done == 0 ==> self@ == start && self.tree().contents() == indexed && self.tree()
                    == old(self).tree() && error is None,
                error is None || error == Some(SamplingError::CapacityExceeded),
                start.radii_positive() ==> self@.radii_positive(),
                forall|p: Particle, n: &Vec<Particle>| energy_of.requires((p, n)),
                forall|p: Particle| split.requires((p,)),
                forall|p: Particle, n: &Vec<Particle>| advance.requires((p, n)),
            decreases iterations - done,
        {
            let ghost entered = self@;
            let ghost held = self.tree().contents();
            let ghost so_far = error is Some;
            let refused = self.pass(desired_radius, energy_of, split, advance);
            if refused.is_some() {
                error = refused;
            }
            proof {
                lemma_pass_after_passes(
                    start,
                    indexed,
                    entered,
                    so_far,
                    done as int,
                    held,
                    self@,
                    refused is Some,
                    desired_radius,
                    energy_of,
                    split,
                    advance,
                    N,
                );
                assert((done + 1) * ITERATION_T_STEP == done * ITERATION_T_STEP + ITERATION_T_STEP)
                    by (nonlinear_arith);
                assert(0 <= done * ITERATION_T_STEP) by (nonlinear_arith)
                    requires
                        0 <= done,
                ;
            }
            done += 1;
        }
        proof {
            reveal(passes_made);
        }
        error
    }

    /// Whether the system is still to be given its first particles: no time
    /// has passed and nothing is alive.
    pub fn needs_initial_sampling(&self) -> (needed: bool)
        ensures
            needed == (self@.t == 0 && self@.live.len() == 0),
    {
        self.t == 0 && self.living_particles.len() == 0
    }

    /// Makes `UPDATE_ITERATIONS` passes. A shortage of slots is reported
    /// once, however often a fission met it.
    pub fn relax_step<E, S, A>(
        &mut self,
        desired_radius: u32,
        energy_of: &E,
        split: &S,
        advance: &A,
    ) -> (error: Option<SamplingError>) where
        E: Fn(Particle, &Vec<Particle>) -> u64,
        S: Fn(Particle) -> Option<(Particle, Particle)>,
        A: Fn(Particle, &Vec<Particle>) -> Option<Particle>,

        requires
            old(self).settled(),
            forall|p: Particle, n: &Vec<Particle>| energy_of.requires((p, n)),
            forall|p: Particle| split.requires((p,)),
            forall|p: Particle, n: &Vec<Particle>| advance.requires((p, n)),
        ensures
            final(self).rebuilt(),
            exists|passes: Seq<Seq<ParticleUpdate>>|
                passes.len() == UPDATE_ITERATIONS && final(self)@ == (#[trigger] old(
                    self,
                )@.relaxed(passes, N)) && (error is Some) == old(self)@.relaxing_refuses(
                    passes,
                    N,
                ) && passes_follow_rules(
                    old(self)@,
                    old(self).tree().contents(),
                    passes,
                    desired_radius,
                    energy_of,
                    split,
                    advance,
                    N,
                ),
            final(self)@.t == clock_after(
                old(self)@.t,
                ITERATION_T_STEP,
                UPDATE_ITERATIONS as int,
            ),
            error is None || error == Some(SamplingError::CapacityExceeded),
            old(self)@.radii_positive() ==> final(self)@.radii_positive(),
    {
        self.relax(UPDATE_ITERATIONS, desired_radius, energy_of, split, advance)
    }

    /// Advances the system by one step. A system that has no particles and
    /// whose clock has not moved first asks `first_samples` for samples of the
    /// surface, positions with normals, at the desired radius; where that
    /// gives nothing the step ends there, with nothing changed, and the
    /// failure is reported. The samples are taken in as by
    /// `initial_sampling`, and then the passes are made as by `relax_step`.
    pub fn update<I, E, S, A>(
        &mut self,
        desired_radius: u32,
        first_samples: &I,
        energy_of: &E,
        split: &S,
        advance: &A,
    ) -> (error: Option<SamplingError>) where
        I: Fn(u32) -> Option<Vec<(Point3, Vector3)>>,
        E: Fn(Particle, &Vec<Particle>) -> u64,
        S: Fn(Particle) -> Option<(Particle, Particle)>,
        A: Fn(Particle, &Vec<Particle>) -> Option<Particle>,

        requires
            old(self).settled(),
            forall|r: u32| first_samples.requires((r,)),
            forall|p: Particle, n: &Vec<Particle>| energy_of.requires((p, n)),
            forall|p: Particle| split.requires((p,)),
            forall|p: Particle, n: &Vec<Particle>| advance.requires((p, n)),
        ensures
            final(self).settled(),
            error != Some(SamplingError::SeedingFailed) ==> final(self).rebuilt(),
            error == Some(SamplingError::SeedingFailed) ==> final(self)@ == old(self)@
                && final(self).tree() == old(self).tree() && old(self)@.t == 0
                && old(self)@.live.len() == 0 && first_samples.ensures((desired_radius,), None),
            error != Some(SamplingError::SeedingFailed) ==> final(self)@.t == clock_after(
                old(self)@.t,
                ITERATION_T_STEP,
                UPDATE_ITERATIONS as int,
            ),
            !(old(self)@.t == 0 && old(self)@.live.len() == 0) ==> error is None || error == Some(
                SamplingError::CapacityExceeded,
            ),
            !(old(self)@.t == 0 && old(self)@.live.len() == 0) ==> exists|
                passes: Seq<Seq<ParticleUpdate>>,
            |
                passes.len() == UPDATE_ITERATIONS && final(self)@ == (#[trigger] old(
                    self,
                )@.relaxed(passes, N)) && (error is Some) == old(self)@.relaxing_refuses(
                    passes,
                    N,
                ) && passes_follow_rules(
                    old(self)@,
                    old(self).tree().contents(),
                    passes,
                    desired_radius,
                    energy_of,
                    split,
                    advance,
                    N,
                ),
            error != Some(SamplingError::SeedingFailed) && old(self)@.t == 0 && old(
                self,
            )@.live.len() == 0 ==> exists|
                samples: Vec<(Point3, Vector3)>,
                passes: Seq<Seq<ParticleUpdate>>,
            |
                first_samples.ensures((desired_radius,), Some(samples)) && passes.len()
                    == UPDATE_ITERATIONS && final(self)@ == (#[trigger] old(self)@.seeded(
                    samples@,
                    desired_radius,
                    N,
                ).relaxed(passes, N)) && (error is Some) == (samples@.len() > N || old(
                    self,
                )@.seeded(samples@, desired_radius, N).relaxing_refuses(passes, N))
                    && #[trigger] passes_follow_rules(
                    old(self)@.seeded(samples@, desired_radius, N),
                    reindexed(old(self)@.seeded(samples@, desired_radius, N)),
                    passes,
                    desired_radius,
                    energy_of,
                    split,
                    advance,
                    N,
                ),
            old(self)@.radii_positive() && desired_radius > 0 ==> final(self)@.radii_positive(),
    {
        let mut crowded: Option<SamplingError> = None;
        if self.needs_initial_sampling() {
            match first_samples(desired_radius) {
                None => {
                    return Some(SamplingError::SeedingFailed);
                },
                Some(samples) => {
                    crowded = self.initial_sampling(desired_radius, samples);
                    proof {
                        if old(self)@.radii_positive() && desired_radius > 0 {
                            lemma_seeded_radii(old(self)@, samples@, desired_radius, N);
                        }
                    }
                },
            }
        }
        let refused = self.relax_step(desired_radius, energy_of, split, advance);
        if refused.is_some() {
            refused
        } else {
            crowded
        }
    }
}

/// Whether `after` is what one pass makes of `before`, for some updates that
/// follow the rules for the neighbours seen among `indexed`, and whether it
/// refuses a fission.
pub open spec fn pass_made<E, S, A>(
    before: SamplingView,
    indexed: Seq<usize>,
    after: SamplingView,
    refused: bool,
    desired_radius: u32,
    energy_of: &E,
    split: &S,
    advance: &A,
    capacity: usize,
) -> bool where
    E: Fn(Particle, &Vec<Particle>) -> u64,
    S: Fn(Particle) -> Option<(Particle, Particle)>,
    A: Fn(Particle, &Vec<Particle>) -> Option<Particle>,
 {
    exists|updates: Seq<ParticleUpdate>|
        after == (#[trigger] before.swept(updates, capacity)).swapped().ticked() && refused
            == before.sweep_refuses(updates, capacity) && pass_follows_rules(
            before,
            indexed,
            updates,
            desired_radius,
            energy_of,
            split,
            advance,
            capacity,
        )
}

/// Whether `after` is what `count` passes make of `before`, for some updates
/// that follow the rules, and whether one of them refuses a fission.
#[verifier::opaque]
pub open spec fn passes_made<E, S, A>(
    before: SamplingView,
    indexed: Seq<usize>,
    after: SamplingView,
    refused: bool,
    count: int,
    desired_radius: u32,
    energy_of: &E,
    split: &S,
    advance: &A,
    capacity: usize,
) -> bool where
    E: Fn(Particle, &Vec<Particle>) -> u64,
    S: Fn(Particle) -> Option<(Particle, Particle)>,
    A: Fn(Particle, &Vec<Particle>) -> Option<Particle>,
 {
    exists|passes: Seq<Seq<ParticleUpdate>>|
        passes.len() == count && after == (#[trigger] before.relaxed(passes, capacity)) && refused
            == before.relaxing_refuses(passes, capacity) && passes_follow_rules(
            before,
            indexed,
            passes,
            desired_radius,
            energy_of,
            split,
            advance,
            capacity,
        )
}

/// No pass makes nothing of a view.
proof fn lemma_no_passes_made<E, S, A>(
    start: SamplingView,
    indexed: Seq<usize>,
    desired_radius: u32,
    energy_of: &E,
    split: &S,
    advance: &A,
    capacity: usize,
) where
    E: Fn(Particle, &Vec<Particle>) -> u64,
    S: Fn(Particle) -> Option<(Particle, Particle)>,
    A: Fn(Particle, &Vec<Particle>) -> Option<Particle>,

    ensures
        passes_made(
            start,
            indexed,
            start,
            false,
            0,
            desired_radius,
            energy_of,
            split,
            advance,
            capacity,
        ),
{
    reveal(passes_made);
    let none = Seq::<Seq<ParticleUpdate>>::empty();
    assert(start.relaxed(none, capacity) == start);
    assert(passes_follow_rules(
        start,
        indexed,
        none,
        desired_radius,
        energy_of,
        split,
        advance,
        capacity,
    ));
}

/// One more pass after some passes makes one pass more.
proof fn lemma_pass_after_passes<E, S, A>(
    start: SamplingView,
    indexed: Seq<usize>,
    mid: SamplingView,
    so_far: bool,
    done: int,
    held: Seq<usize>,
    after: SamplingView,
    refused: bool,
    desired_radius: u32,
    energy_of: &E,
    split: &S,
    advance: &A,
    capacity: usize,
) where
    E: Fn(Particle, &Vec<Particle>) -> u64,
    S: Fn(Particle) -> Option<(Particle, Particle)>,
    A: Fn(Particle, &Vec<Particle>) -> Option<Particle>,

    requires
        0 <= done,
        passes_made(
            start,
            indexed,
            mid,
            so_far,
            done,
            desired_radius,
            energy_of,
            split,
            advance,
            capacity,
        ),
        pass_made(mid, held, after, refused, desired_radius, energy_of, split, advance, capacity),
        done == 0 ==> held == indexed,
        done > 0 ==> held == reindexed(mid),
    ensures
        passes_made(
            start,
            indexed,
            after,
            so_far || refused,
            done + 1,
            desired_radius,
            energy_of,
            split,
            advance,
            capacity,
        ),
{
    reveal(passes_made);
    let passes = choose|passes: Seq<Seq<ParticleUpdate>>|
        passes.len() == done && mid == (#[trigger] start.relaxed(passes, capacity)) && so_far
            == start.relaxing_refuses(passes, capacity) && passes_follow_rules(
            start,
            indexed,
            passes,
            desired_radius,
            energy_of,
            split,
            advance,
            capacity,
        );
    let updates = choose|updates: Seq<ParticleUpdate>|
        after == (#[trigger] mid.swept(updates, capacity)).swapped().ticked() && refused
            == mid.sweep_refuses(updates, capacity) && pass_follows_rules(
            mid,
            held,
            updates,
            desired_radius,
            energy_of,
            split,
            advance,
            capacity,
        );
    lemma_one_more_pass(
        start,
        indexed,
        passes,
        updates,
        held,
        desired_radius,
        energy_of,
        split,
        advance,
        capacity,
    );
    let longer = passes.push(updates);
    assert(after == start.relaxed(longer, capacity));
}

/// Passes that follow the rules still do so with one more pass that follows
/// them in the view that they have left.
proof fn lemma_one_more_pass<E, S, A>(
    start: SamplingView,
    indexed: Seq<usize>,
    passes: Seq<Seq<ParticleUpdate>>,
    updates: Seq<ParticleUpdate>,
    held: Seq<usize>,
    desired_radius: u32,
    energy_of: &E,
    split: &S,
    advance: &A,
    capacity: usize,
) where
    E: Fn(Particle, &Vec<Particle>) -> u64,
    S: Fn(Particle) -> Option<(Particle, Particle)>,
    A: Fn(Particle, &Vec<Particle>) -> Option<Particle>,

    requires
        passes_follow_rules(
            start,
            indexed,
            passes,
            desired_radius,
            energy_of,
            split,
            advance,
            capacity,
        ),
        pass_follows_rules(
            start.relaxed(passes, capacity),
            held,
            updates,
            desired_radius,
            energy_of,
            split,
            advance,
            capacity,
        ),
        passes.len() == 0 ==> held == indexed,
        passes.len() > 0 ==> held == reindexed(start.relaxed(passes, capacity)),
    ensures
        passes_follow_rules(
            start,
            indexed,
            passes.push(updates),
            desired_radius,
            energy_of,
            split,
            advance,
            capacity,
        ),
        start.relaxed(passes.push(updates), capacity) == start.relaxed(passes, capacity).swept(
            updates,
            capacity,
        ).swapped().ticked(),
        start.relaxing_refuses(passes.push(updates), capacity) == (start.relaxing_refuses(
            passes,
            capacity,
        ) || start.relaxed(passes, capacity).sweep_refuses(updates, capacity)),
{
    let longer = passes.push(updates);
    let done = passes.len() as int;
    assert(longer.drop_last() =~= passes);
    assert(longer.last() == updates);
    assert(longer.take(done) =~= passes);
    assert forall|k: int| 0 <= k < longer.len() implies #[trigger] nth_pass_follows_rules(
        start,
        indexed,
        longer,
        k,
        desired_radius,
        energy_of,
        split,
        advance,
        capacity,
    ) by {
        if k < done {
            assert(longer.take(k) =~= passes.take(k));
            assert(longer[k] == passes[k]);
            assert(nth_pass_follows_rules(
                start,
                indexed,
                passes,
                k,
                desired_radius,
                energy_of,
                split,
                advance,
                capacity,
            ));
        } else {
            assert(longer[k] == updates);
            assert(start.relaxed(longer.take(k), capacity) == start.relaxed(passes, capacity));
            if k > 0 {
                assert(later_pass_follows_rules(
                    start.relaxed(passes, capacity),
                    updates,
                    desired_radius,
                    energy_of,
                    split,
                    advance,
                    capacity,
                ));
            }
        }
    }
}

/// What an update that keeps radii above nothing writes for the particle
/// listed at `j`, and for the sibling that it may list, has a radius above
/// nothing, where the particle had one; and nothing else is written.
proof fn lemma_written_radii(
    view: SamplingView,
    j: int,
    update: ParticleUpdate,
    capacity: usize,
    k: int,
)
    requires
        0 <= j < view.live.len(),
        view.live.no_duplicates(),
        all_below(view.live, capacity as int),
        view.live.len() <= capacity,
        view.back.len() == capacity,
        view.front.len() == capacity,
        keeps_radii(update),
        view.front[view.live[j] as int].radius > 0,
        forall|m: int|
            j < m < view.live.len() ==> view.back[(#[trigger] view.live[m]) as int].radius > 0,
        j <= k < view.applied(j, update, capacity).live.len(),
    ensures
        view.applied(j, update, capacity).back[view.applied(j, update, capacity).live[k] as int].radius
            > 0,
{
    let after = view.applied(j, update, capacity);
    let i = view.live[j];
    assert(i < capacity);
    match update {
        ParticleUpdate::Kill => {
            assert(after.live[k] == view.live[k + 1]);
        },
        ParticleUpdate::Fission(first, second) => {
            if view.live.len() < capacity {
                lemma_some_slot_is_free(view.live, capacity);
                let sibling = least_free(view.live);
                assert(is_least_free(view.live, sibling));
                if k < view.live.len() {
                    assert(after.live[k] == view.live[k]);
                    assert(view.live.contains(view.live[k]));
                    assert(view.live[k] < capacity);
                }
            } else {
                assert(view.live[k] < capacity);
            }
        },
        _ => {
            assert(view.live[k] < capacity);
        },
    }
}

/// A list without repetitions of fewer slots than there are has a lowest
/// free slot, and it is a slot of the system.
proof fn lemma_some_slot_is_free(live: Seq<usize>, capacity: usize)
    requires
        live.no_duplicates(),
        all_below(live, capacity as int),
        live.len() < capacity,
    ensures
        is_least_free(live, least_free(live)),
        least_free(live) < capacity,
    decreases capacity,
{
    // were every slot listed, the list would be as long as the system is large
    if forall|s: usize| s < capacity ==> live.contains(s) {
        let all = Seq::new(capacity as nat, |k: int| k as usize);
        assert forall|x: usize| all.contains(x) implies live.contains(x) by {
            let k = choose|k: int| 0 <= k < all.len() && all[k] == x;
            assert(x < capacity);
        }
        lemma_subset_len(all, live);
        assert(false);
    }
    let free = choose|s: usize| s < capacity && !live.contains(s);
    lemma_lowest_free(live, free);
    let low = choose|s: usize| s <= free && is_least_free(live, s);
    lemma_least_free_unique(live, low);
}

/// Below any free slot there is a lowest free slot.
proof fn lemma_lowest_free(live: Seq<usize>, free: usize)
    requires
        !live.contains(free),
    ensures
        exists|s: usize| s <= free && is_least_free(live, s),
    decreases free,
{
    if forall|j: usize| j < free ==> live.contains(j) {
        assert(is_least_free(live, free));
    } else {
        let lower = choose|j: usize| j < free && !live.contains(j);
        lemma_lowest_free(live, lower);
        let s = choose|s: usize| s <= lower && is_least_free(live, s);
        assert(s <= free && is_least_free(live, s));
    }
}

/// A list without repetitions whose entries are all in another list is no
/// longer than that list.
proof fn lemma_subset_len(a: Seq<usize>, b: Seq<usize>)
    requires
        a.no_duplicates(),
        forall|x: usize| a.contains(x) ==> b.contains(x),
    ensures
        a.len() <= b.len(),
    decreases a.len(),
{
    if a.len() > 0 {
        let last = a.last();
        assert(a.contains(last));
        let k = choose|k: int| 0 <= k < b.len() && b[k] == last;
        let rest = a.drop_last();
        let fewer = b.remove(k);
        assert forall|x: usize| rest.contains(x) implies fewer.contains(x) by {
            let m = choose|m: int| 0 <= m < rest.len() && rest[m] == x;
            assert(a[m] == x);
            assert(a.contains(x));
            assert(x != last);
            let n = choose|n: int| 0 <= n < b.len() && b[n] == x;
            let n1 = if n < k { n } else { n - 1 };
            assert(fewer[n1] == x);
        }
        lemma_subset_len(rest, fewer);
    }
}

/// Samples taken in at a radius above nothing leave every live particle
/// with a radius above nothing, where that held before.
proof fn lemma_seeded_radii(
    view: SamplingView,
    samples: Seq<(Point3, Vector3)>,
    radius: u32,
    capacity: usize,
)
    requires
        view.radii_positive(),
        radius > 0,
        view.live.no_duplicates(),
        all_below(view.live, capacity as int),
        view.front.len() == capacity,
        view.back.len() == capacity,
    ensures
        view.seeded(samples, radius, capacity).radii_positive(),
    decreases samples.len(),
{
    if samples.len() > 0 && view.live.len() < capacity {
        lemma_some_slot_is_free(view.live, capacity);
        let slot = least_free(view.live);
        let particle = Particle {
            position: samples[0].0,
            velocity: Vector3 { x: 0, y: 0, z: 0 },
            normal: samples[0].1,
            radius,
        };
        let next = SamplingView {
            front: view.front.update(slot as int, particle),
            back: view.back.update(slot as int, particle),
            live: view.live.push(slot),
            ..view
        };
        lemma_push_to_distinct(view.live, slot);
        assert forall|k: int| 0 <= k < next.live.len() implies next.front[(
        #[trigger] next.live[k]) as int].radius > 0 by {
            if k < view.live.len() {
                assert(next.live[k] == view.live[k]);
                assert(view.live.contains(view.live[k]));
                assert(view.live[k] < capacity);
            }
        }
        assert forall|k: int| 0 <= k < next.live.len() implies (#[trigger] next.live[k])
            < capacity by {
            if k < view.live.len() {
                assert(next.live[k] == view.live[k]);
            }
        }
        lemma_seeded_radii(next, samples.drop_first(), radius, capacity);
    }
}

impl<const N: usize> SamplingSystem<N> {
    /// Every live slot is one that the allocator has handed out, and every
    /// slot that the allocator has handed out is alive.
    pub proof fn lemma_live_is_allocated(&self)
        requires
            self.wf(),
        ensures
            forall|i: usize| self@.live.contains(i) ==> self.slots().allocated().contains(i),
            forall|i: usize| self.slots().allocated().contains(i) ==> self@.live.contains(i),
            self@.live.len() <= N,
    {
        crate::slots::lemma_distinct_below_len(self@.live, N as int);
    }

    /// What the system shows names no slot twice and has one entry for each
    /// live particle.
    pub proof fn lemma_positions_list_each_once(&self)
        requires
            self.wf(),
        ensures
            self@.live.no_duplicates(),
            self@.positions().len() == self@.live.len(),
            forall|a: int, b: int|
                0 <= a < b < self@.live.len() ==> self@.live[a] != self@.live[b],
    {
    }

    /// Between passes the neighbours of a particle are the live slots
    /// within its reach, itself left out, each named once.
    pub proof fn lemma_neighbours_are_live_within_reach(&self, j: int)
        requires
            self.settled(),
            0 <= j < self@.live.len(),
        ensures
            self@.neighbours(self.tree().contents(), j).no_duplicates(),
            forall|k: usize|
                self@.neighbours(self.tree().contents(), j).contains(k) <==> (self@.live.contains(k)
                    && k != self@.live[j] && crate::geometry::within(
                    self@.front[k as int].position,
                    self@.front[self@.live[j] as int].position,
                    reach_of(self@.front[self@.live[j] as int].radius),
                )),
    {
        let held = self.tree().contents();
        let live = self@.live;
        let i = live[j];
        let reach = near(
            self@.front,
            self@.front[i as int].position,
            reach_of(self@.front[i as int].radius),
        );
        let others = |k: usize| k != i;
        lemma_same_members(held, live);
        live.lemma_multiset_has_no_duplicates();
        held.lemma_multiset_has_no_duplicates_conv();
        lemma_filter_keeps_distinct(held, reach);
        lemma_filter_keeps_distinct(held.filter(reach), others);
        lemma_filter_members(held, reach);
        lemma_filter_members(held.filter(reach), others);
        assert forall|k: usize|
            self@.neighbours(held, j).contains(k) <==> (live.contains(k) && k != i
                && crate::geometry::within(
                self@.front[k as int].position,
                self@.front[i as int].position,
                reach_of(self@.front[i as int].radius),
            )) by {
            if live.contains(k) {
                let m = choose|m: int| 0 <= m < live.len() && live[m] == k;
                assert(live[m] < N);
            }
        }
    }
}

/// Whether the caller's functions are functions in earnest: for one
/// particle and the same neighbours each gives one result and no other.
pub open spec fn single_valued<E, S, A>(energy_of: &E, split: &S, advance: &A) -> bool where
    E: Fn(Particle, &Vec<Particle>) -> u64,
    S: Fn(Particle) -> Option<(Particle, Particle)>,
    A: Fn(Particle, &Vec<Particle>) -> Option<Particle>,
 {
    &&& forall|p: Particle, n1: Vec<Particle>, n2: Vec<Particle>, e1: u64, e2: u64|
        #![trigger energy_of.ensures((p, &n1), e1), energy_of.ensures((p, &n2), e2)]
        n1@ == n2@ && energy_of.ensures((p, &n1), e1) && energy_of.ensures((p, &n2), e2) ==> e1
            == e2
    &&& forall|p: Particle, c1: Option<(Particle, Particle)>, c2: Option<(Particle, Particle)>|
        #![trigger split.ensures((p,), c1), split.ensures((p,), c2)]
        split.ensures((p,), c1) && split.ensures((p,), c2) ==> c1 == c2
    &&& forall|
        p: Particle,
        n1: Vec<Particle>,
        n2: Vec<Particle>,
        m1: Option<Particle>,
        m2: Option<Particle>,
    |
        #![trigger advance.ensures((p, &n1), m1), advance.ensures((p, &n2), m2)]
        n1@ == n2@ && advance.ensures((p, &n1), m1) && advance.ensures((p, &n2), m2) ==> m1 == m2
}

/// The rules leave no choice: for one particle, the same neighbours and one
/// state of the generator, functions that are single-valued allow one update
/// and no other.
pub proof fn lemma_rules_leave_no_choice<E, S, A>(
    particle: Particle,
    seen: Seq<Particle>,
    desired_radius: u32,
    seed: u64,
    energy_of: &E,
    split: &S,
    advance: &A,
    first: ParticleUpdate,
    second: ParticleUpdate,
) where
    E: Fn(Particle, &Vec<Particle>) -> u64,
    S: Fn(Particle) -> Option<(Particle, Particle)>,
    A: Fn(Particle, &Vec<Particle>) -> Option<Particle>,

    requires
        single_valued(energy_of, split, advance),
        follows_rules(particle, seen, desired_radius, seed, energy_of, split, advance, first),
        follows_rules(particle, seen, desired_radius, seed, energy_of, split, advance, second),
    ensures
        first == second,
{
    let draw = draw_of(seed);
    let (n1, e1, c1, m1) = choose|
        neighbours: Vec<Particle>,
        energy: u64,
        children: Option<(Particle, Particle)>,
        moved: Option<Particle>,
    |
        neighbours@ == seen && #[trigger] ruled(
            particle,
            desired_radius,
            energy_of,
            split,
            advance,
            first,
            draw,
            neighbours,
            energy,
            children,
            moved,
        );
    let (n2, e2, c2, m2) = choose|
        neighbours: Vec<Particle>,
        energy: u64,
        children: Option<(Particle, Particle)>,
        moved: Option<Particle>,
    |
        neighbours@ == seen && #[trigger] ruled(
            particle,
            desired_radius,
            energy_of,
            split,
            advance,
            second,
            draw,
            neighbours,
            energy,
            children,
            moved,
        );
    let f1 = fate_of(particle.velocity, particle.radius, e1, desired_radius, draw);
    let f2 = fate_of(particle.velocity, particle.radius, e2, desired_radius, draw);
    if at_rest(particle.velocity, particle.radius) && !dies(particle.radius, desired_radius, draw) {
        assert(energy_of.ensures((particle, &n1), e1));
        assert(energy_of.ensures((particle, &n2), e2));
        assert(e1 == e2);
    }
    assert(f1 == f2);
    if f1 == Fate::Fission {
        assert(split.ensures((particle,), c1));
        assert(split.ensures((particle,), c2));
        assert(c1 == c2);
    }
    if f1 == Fate::Motion {
        assert(advance.ensures((particle, &n1), m1));
        assert(advance.ensures((particle, &n2), m2));
        assert(m1 == m2);
    }
}

/// A replay gives the same pass: from one view, with the same slots in the
/// tree and functions that are single-valued, the updates of a pass that
/// follows the rules are fixed, and with them the view after the pass. The
/// draws are part of the view, so nothing else enters.
pub proof fn lemma_pass_leaves_no_choice<E, S, A>(
    at: SamplingView,
    indexed: Seq<usize>,
    first: Seq<ParticleUpdate>,
    second: Seq<ParticleUpdate>,
    desired_radius: u32,
    energy_of: &E,
    split: &S,
    advance: &A,
    capacity: usize,
) where
    E: Fn(Particle, &Vec<Particle>) -> u64,
    S: Fn(Particle) -> Option<(Particle, Particle)>,
    A: Fn(Particle, &Vec<Particle>) -> Option<Particle>,

    requires
        single_valued(energy_of, split, advance),
        pass_follows_rules(
            at,
            indexed,
            first,
            desired_radius,
            energy_of,
            split,
            advance,
            capacity,
        ),
        pass_follows_rules(
            at,
            indexed,
            second,
            desired_radius,
            energy_of,
            split,
            advance,
            capacity,
        ),
    ensures
        first == second,
        at.swept(first, capacity).swapped().ticked() == at.swept(second, capacity).swapped().ticked(),
{
    lemma_sweeps_agree_from(
        at,
        indexed,
        first,
        second,
        desired_radius,
        energy_of,
        split,
        advance,
        capacity,
        0,
    );
    assert(first.skip(0) =~= first);
    assert(second.skip(0) =~= second);
}

/// What a pass that follows the rules says of the update at one place.
proof fn lemma_rule_at<E, S, A>(
    at: SamplingView,
    indexed: Seq<usize>,
    updates: Seq<ParticleUpdate>,
    desired_radius: u32,
    energy_of: &E,
    split: &S,
    advance: &A,
    capacity: usize,
    j: int,
) where
    E: Fn(Particle, &Vec<Particle>) -> u64,
    S: Fn(Particle) -> Option<(Particle, Particle)>,
    A: Fn(Particle, &Vec<Particle>) -> Option<Particle>,

    requires
        pass_follows_rules(
            at,
            indexed,
            updates,
            desired_radius,
            energy_of,
            split,
            advance,
            capacity,
        ),
    ensures
        updates.len() == at.live.len(),
        0 <= j < updates.len() ==> follows_rules(
            at.front[at.live[j] as int],
            at.seen_by(indexed, j),
            desired_radius,
            at.swept(updates.skip(j + 1), capacity).seed,
            energy_of,
            split,
            advance,
            updates[j],
        ),
{
    reveal(pass_follows_rules);
}

/// Two sweeps that follow the rules agree from every place on.
proof fn lemma_sweeps_agree_from<E, S, A>(
    at: SamplingView,
    indexed: Seq<usize>,
    first: Seq<ParticleUpdate>,
    second: Seq<ParticleUpdate>,
    desired_radius: u32,
    energy_of: &E,
    split: &S,
    advance: &A,
    capacity: usize,
    j: int,
) where
    E: Fn(Particle, &Vec<Particle>) -> u64,
    S: Fn(Particle) -> Option<(Particle, Particle)>,
    A: Fn(Particle, &Vec<Particle>) -> Option<Particle>,

    requires
        single_valued(energy_of, split, advance),
        pass_follows_rules(
            at,
            indexed,
            first,
            desired_radius,
            energy_of,
            split,
            advance,
            capacity,
        ),
        pass_follows_rules(
            at,
            indexed,
            second,
            desired_radius,
            energy_of,
            split,
            advance,
            capacity,
        ),
        0 <= j <= at.live.len(),
    ensures
        first.len() == at.live.len(),
        second.len() == at.live.len(),
        first.skip(j) == second.skip(j),
    decreases at.live.len() - j,
{
    lemma_rule_at(at, indexed, first, desired_radius, energy_of, split, advance, capacity, j);
    lemma_rule_at(at, indexed, second, desired_radius, energy_of, split, advance, capacity, j);
    if j == at.live.len() {
        assert(first.skip(j) =~= second.skip(j));
    } else {
        lemma_sweeps_agree_from(
            at,
            indexed,
            first,
            second,
            desired_radius,
            energy_of,
            split,
            advance,
            capacity,
            j + 1,
        );
        lemma_rules_leave_no_choice(
            at.front[at.live[j] as int],
            at.seen_by(indexed, j),
            desired_radius,
            at.swept(first.skip(j + 1), capacity).seed,
            energy_of,
            split,
            advance,
            first[j],
            second[j],
        );
        assert(first.skip(j) =~= seq![first[j]] + first.skip(j + 1));
        assert(second.skip(j) =~= seq![second[j]] + second.skip(j + 1));
    }
}

/// A replay gives the same particles: from one view, with the same slots in
/// the tree and functions that are single-valued, passes that follow the
/// rules are fixed one and all, and with them the view that they leave,
/// what it shows, and whether a fission was refused. The draws are part of
/// the view, so nothing else enters.
pub proof fn lemma_passes_leave_no_choice<E, S, A>(
    view: SamplingView,
    indexed: Seq<usize>,
    first: Seq<Seq<ParticleUpdate>>,
    second: Seq<Seq<ParticleUpdate>>,
    desired_radius: u32,
    energy_of: &E,
    split: &S,
    advance: &A,
    capacity: usize,
) where
    E: Fn(Particle, &Vec<Particle>) -> u64,
    S: Fn(Particle) -> Option<(Particle, Particle)>,
    A: Fn(Particle, &Vec<Particle>) -> Option<Particle>,

    requires
        single_valued(energy_of, split, advance),
        first.len() == second.len(),
        passes_follow_rules(
            view,
            indexed,
            first,
            desired_radius,
            energy_of,
            split,
            advance,
            capacity,
        ),
        passes_follow_rules(
            view,
            indexed,
            second,
            desired_radius,
            energy_of,
            split,
            advance,
            capacity,
        ),
    ensures
        first == second,
        view.relaxed(first, capacity) == view.relaxed(second, capacity),
        view.relaxed(first, capacity).positions() == view.relaxed(second, capacity).positions(),
        view.relaxing_refuses(first, capacity) == view.relaxing_refuses(second, capacity),
{
    lemma_passes_agree_upto(
        view,
        indexed,
        first,
        second,
        desired_radius,
        energy_of,
        split,
        advance,
        capacity,
        first.len() as int,
    );
    assert(first.take(first.len() as int) =~= first);
    assert(second.take(second.len() as int) =~= second);
}

/// Passes that follow the rules agree up to every place.
proof fn lemma_passes_agree_upto<E, S, A>(
    view: SamplingView,
    indexed: Seq<usize>,
    first: Seq<Seq<ParticleUpdate>>,
    second: Seq<Seq<ParticleUpdate>>,
    desired_radius: u32,
    energy_of: &E,
    split: &S,
    advance: &A,
    capacity: usize,
    k: int,
) where
    E: Fn(Particle, &Vec<Particle>) -> u64,
    S: Fn(Particle) -> Option<(Particle, Particle)>,
    A: Fn(Particle, &Vec<Particle>) -> Option<Particle>,

    requires
        single_valued(energy_of, split, advance),
        first.len() == second.len(),
        0 <= k <= first.len(),
        passes_follow_rules(
            view,
            indexed,
            first,
            desired_radius,
            energy_of,
            split,
            advance,
            capacity,
        ),
        passes_follow_rules(
            view,
            indexed,
            second,
            desired_radius,
            energy_of,
            split,
            advance,
            capacity,
        ),
    ensures
        first.take(k) == second.take(k),
    decreases k,
{
    if k == 0 {
        assert(first.take(0) =~= second.take(0));
    } else {
        lemma_passes_agree_upto(
            view,
            indexed,
            first,
            second,
            desired_radius,
            energy_of,
            split,
            advance,
            capacity,
            k - 1,
        );
        let at = view.relaxed(first.take(k - 1), capacity);
        assert(nth_pass_follows_rules(
            view,
            indexed,
            first,
            k - 1,
            desired_radius,
            energy_of,
            split,
            advance,
            capacity,
        ));
        assert(nth_pass_follows_rules(
            view,
            indexed,
            second,
            k - 1,
            desired_radius,
            energy_of,
            split,
            advance,
            capacity,
        ));
        lemma_pass_leaves_no_choice(
            at,
            if k - 1 == 0 {
                indexed
            } else {
                reindexed(at)
            },
            first[k - 1],
            second[k - 1],
            desired_radius,
            energy_of,
            split,
            advance,
            capacity,
        );
        assert(first.take(k) =~= first.take(k - 1).push(first[k - 1]));
        assert(second.take(k) =~= second.take(k - 1).push(second[k - 1]));
    }
}

/// Without a pass nothing changes: the buffers, the list and the clock are
/// what they were.
pub proof fn lemma_no_pass_changes_nothing(view: SamplingView, capacity: usize)
    ensures
        view.relaxed(Seq::<Seq<ParticleUpdate>>::empty(), capacity) == view,
        !view.relaxing_refuses(Seq::<Seq<ParticleUpdate>>::empty(), capacity),
        view.swept(Seq::<ParticleUpdate>::empty(), capacity) == view,
{
}

/// Whether `live` lists the slots from zero up, each at its own place.
pub open spec fn counts_up(live: Seq<usize>) -> bool {
    forall|k: int| 0 <= k < live.len() ==> live[k] == k
}

/// In a list that counts up the lowest free slot is the length of the list.
pub proof fn lemma_least_free_of_count(live: Seq<usize>)
    requires
        counts_up(live),
        live.len() <= usize::MAX,
    ensures
        least_free(live) == live.len(),
{
    let slot = live.len() as usize;
    assert(!live.contains(slot));
    assert forall|j: usize| j < slot implies live.contains(j) by {
        assert(live[j as int] == j);
    }
    lemma_least_free_unique(live, slot);
}

/// Samples that are taken in by a system whose list counts up, and that find
/// room, fill the slots after those listed, in their order, in both buffers.
pub proof fn lemma_seeded_in_order(
    view: SamplingView,
    samples: Seq<(Point3, Vector3)>,
    radius: u32,
    capacity: usize,
)
    requires
        counts_up(view.live),
        view.live.len() + samples.len() <= capacity,
        view.front.len() >= capacity,
        view.back.len() >= capacity,
    ensures
        counts_up(view.seeded(samples, radius, capacity).live),
        view.seeded(samples, radius, capacity).live.len() == view.live.len() + samples.len(),
        view.seeded(samples, radius, capacity).front.len() == view.front.len(),
        view.seeded(samples, radius, capacity).t == view.t,
        forall|k: int|
            0 <= k < view.live.len() ==> #[trigger] view.seeded(samples, radius, capacity).front[k]
                == view.front[k],
        forall|k: int|
            0 <= k < samples.len() ==> #[trigger] view.seeded(
                samples,
                radius,
                capacity,
            ).front[view.live.len() + k] == (Particle {
                position: samples[k].0,
                velocity: Vector3 { x: 0, y: 0, z: 0 },
                normal: samples[k].1,
                radius,
            }),
    decreases samples.len(),
{
    if samples.len() > 0 {
        lemma_least_free_of_count(view.live);
        let slot = least_free(view.live);
        let particle = Particle {
            position: samples[0].0,
            velocity: Vector3 { x: 0, y: 0, z: 0 },
            normal: samples[0].1,
            radius,
        };
        let next = SamplingView {
            front: view.front.update(slot as int, particle),
            back: view.back.update(slot as int, particle),
            live: view.live.push(slot),
            ..view
        };
        let rest = samples.drop_first();
        lemma_seeded_in_order(next, rest, radius, capacity);
        let last = view.seeded(samples, radius, capacity);
        assert(last == next.seeded(rest, radius, capacity));
        assert forall|k: int| 0 <= k < view.live.len() implies #[trigger] last.front[k]
            == view.front[k] by {
            assert(next.front[k] == view.front[k]);
        }
        assert forall|k: int| 0 <= k < samples.len() implies #[trigger] last.front[view.live.len()
            + k] == (Particle {
            position: samples[k].0,
            velocity: Vector3 { x: 0, y: 0, z: 0 },
            normal: samples[k].1,
            radius,
        }) by {
            if k == 0 {
                assert(last.front[view.live.len() as int] == next.front[view.live.len() as int]);
            } else {
                assert(rest[k - 1] == samples[k]);
                assert(last.front[next.live.len() + (k - 1)] == (Particle {
                    position: rest[k - 1].0,
                    velocity: Vector3 { x: 0, y: 0, z: 0 },
                    normal: rest[k - 1].1,
                    radius,
                }));
            }
        }
    }
}

/// Samples that are taken in by a system without particles, and that find
/// room, fill the slots from zero up, in their order.
pub proof fn lemma_seeded_from_nothing(
    view: SamplingView,
    samples: Seq<(Point3, Vector3)>,
    radius: u32,
    capacity: usize,
)
    requires
        view.live.len() == 0,
        samples.len() <= capacity,
        view.front.len() >= capacity,
        view.back.len() >= capacity,
    ensures
        view.seeded(samples, radius, capacity).live.len() == samples.len(),
        view.seeded(samples, radius, capacity).t == view.t,
        forall|k: int|
            0 <= k < samples.len() ==> (#[trigger] view.seeded(samples, radius, capacity).live[k])
                == k && view.seeded(samples, radius, capacity).front[k] == (Particle {
                position: samples[k].0,
                velocity: Vector3 { x: 0, y: 0, z: 0 },
                normal: samples[k].1,
                radius,
            }),
{
    lemma_seeded_in_order(view, samples, radius, capacity);
    assert forall|k: int| 0 <= k < samples.len() implies (#[trigger] view.seeded(
        samples,
        radius,
        capacity,
    ).live[k]) == k && view.seeded(samples, radius, capacity).front[k] == (Particle {
        position: samples[k].0,
        velocity: Vector3 { x: 0, y: 0, z: 0 },
        normal: samples[k].1,
        radius,
    }) by {
        assert(view.seeded(samples, radius, capacity).front[view.live.len() + k] == (Particle {
            position: samples[k].0,
            velocity: Vector3 { x: 0, y: 0, z: 0 },
            normal: samples[k].1,
            radius,
        }));
    }
}

} // verus!
