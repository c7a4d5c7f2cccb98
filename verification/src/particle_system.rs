//! A particle system over any slot allocator and any spatial indexer: two
//! pools of particles that change roles after each pass, with deaths put off
//! to the end of the pass.

use vstd::prelude::*;
use crate::geometry::{Point3, Vector3};
use crate::pool::{PoolAllocator, StackPoolAllocator};
use crate::relaxation::{
    clock_after, dies, fate_at_speed, is_slower_than, should_die, should_fission_energy,
    should_fission_radius, slower_than, Fate,
};
use crate::sequences::{
    lemma_filter_agrees, lemma_push_to_distinct, lemma_remove_from_distinct, lemma_same_members,
};
use crate::slots::{all_below, lemma_distinct_below_len};
use crate::spatial_indexer::kd_indexer::KdIndexer;
use crate::spatial_indexer::{near, Positioned, SpatialIndexer};

verus! {

/// The number of slots in each pool.
pub const MAX_PARTICLES: usize = 10000;

/// A particle that repels its neighbours.
#[derive(Debug, Copy, Clone, PartialEq, Eq, Structural)]
pub struct Particle {
    pub position: Point3,
    pub velocity: Vector3,
    pub radius: u32,
}

impl Positioned for Particle {
    open spec fn location(&self) -> Point3 {
        self.position
    }

    fn position(&self) -> (p: Point3) {
        self.position
    }
}

/// What a pass has found for one particle.
#[derive(Debug, Copy, Clone, PartialEq, Eq, Structural)]
pub enum ParticleUpdate {
    /// The particle dies at the end of the pass.
    Kill,
    /// The particle lives on with this state.
    Live(Particle),
    /// The particle splits in two: the first takes its slot, the second a
    /// free one.
    Fission(Particle, Particle),
}

/// The pools, the list of the slots in use, and what hands out the slots and
/// finds neighbours.
pub struct ParticleStorage<A, S> {
    pub index_allocator: A,
    pub spatial_indexer: S,
    pub active_particles: Vec<usize>,
    pub pool_a: Vec<Particle>,
    pub pool_b: Vec<Particle>,
    pub _active_pool: bool,
}

/// The positions of `listed` that are not in `killed`, which names positions
/// in ascending order: what is left when the killed are taken out from the
/// last to the first.
pub open spec fn retired(listed: Seq<usize>, killed: Seq<usize>) -> Seq<usize>
    decreases killed.len(),
{
    if killed.len() == 0 {
        listed
    } else {
        retired(listed.remove(killed.last() as int), killed.drop_last())
    }
}

/// Positions in ascending order, each below `bound`.
pub open spec fn ascending_below(killed: Seq<usize>, bound: int) -> bool {
    &&& forall|a: int, b: int| 0 <= a < b < killed.len() ==> killed[a] < killed[b]
    &&& forall|a: int| 0 <= a < killed.len() ==> killed[a] < bound
}

impl<A, S> ParticleStorage<A, S> where
    A: PoolAllocator<MAX_PARTICLES>,
    S: SpatialIndexer<Particle>,
 {
    /// The pool that the pass writes.
    pub open spec fn active(&self) -> Seq<Particle> {
        if self._active_pool {
            self.pool_a@
        } else {
            self.pool_b@
        }
    }

    /// The pool that the pass reads.
    pub open spec fn inactive(&self) -> Seq<Particle> {
        if self._active_pool {
            self.pool_b@
        } else {
            self.pool_a@
        }
    }

    /// The pools and the list agree with the allocator: both pools have
    /// `MAX_PARTICLES` slots; a slot is listed exactly when the allocator has
    /// handed it out, and is listed once.
    pub open spec fn consistent(&self) -> bool {
        &&& self.pool_a@.len() == MAX_PARTICLES
        &&& self.pool_b@.len() == MAX_PARTICLES
        &&& self.index_allocator.wf()
        &&& self.active_particles@.no_duplicates()
        &&& all_below(self.active_particles@, MAX_PARTICLES as int)
        &&& forall|i: usize|
            self.active_particles@.contains(i) <==> self.index_allocator.allocated().contains(i)
        &&& self.index_allocator.in_use() == self.active_particles@.len()
    }

    /// The storage is consistent and the indexer fits the pool that is read.
    pub open spec fn wf(&self) -> bool {
        &&& self.consistent()
        &&& self.spatial_indexer.fits(self.inactive())
    }

    /// Between passes the indexer holds exactly the listed slots.
    pub open spec fn settled(&self) -> bool {
        &&& self.wf()
        &&& self.spatial_indexer.indices().to_multiset() =~= self.active_particles@.to_multiset()
    }

    /// Fills a storage with a particle of the given radius for each sample,
    /// a position with a velocity, in slots that the allocator hands out.
    pub fn init_with_samples(mut pa: A, mut si: S, samples: Vec<(Point3, Vector3)>, radius: u32) -> (storage:
        Self)
        requires
            pa.wf(),
            pa.in_use() == 0,
            forall|i: usize| !pa.allocated().contains(i),
            samples@.len() <= MAX_PARTICLES,
        ensures
            storage.settled(),
            storage._active_pool,
            storage.pool_a@ == storage.pool_b@,
            storage.active_particles@.len() == samples@.len(),
            forall|k: int|
                0 <= k < samples@.len() ==> storage.pool_a@[(
                #[trigger] storage.active_particles@[k]) as int] == (Particle {
                    position: samples@[k].0,
                    velocity: samples@[k].1,
                    radius,
                }),
    {
        let blank = Particle {
            position: Point3 { x: 0, y: 0, z: 0 },
            velocity: Vector3 { x: 0, y: 0, z: 0 },
            radius,
        };
        let mut pool_a: Vec<Particle> = Vec::new();
        let mut pool_b: Vec<Particle> = Vec::new();
        let mut n: usize = 0;
        while n < MAX_PARTICLES
            invariant
                n <= MAX_PARTICLES,
                pool_a@.len() == n,
                pool_b@ == pool_a@,
            decreases MAX_PARTICLES - n,
        {
            pool_a.push(blank);
            pool_b.push(blank);
            n += 1;
        }
        let mut active_particles: Vec<usize> = Vec::new();
        let mut k: usize = 0;
        while k < samples.len()
            invariant
                k <= samples@.len(),
                samples@.len() <= MAX_PARTICLES,
                pool_a@.len() == MAX_PARTICLES,
                pool_b@ == pool_a@,
                pa.wf(),
                pa.in_use() == k,
                active_particles@.len() == k,
                active_particles@.no_duplicates(),
                all_below(active_particles@, MAX_PARTICLES as int),
                forall|i: usize| active_particles@.contains(i) <==> pa.allocated().contains(i),
                forall|m: int|
                    0 <= m < k ==> pool_a@[(#[trigger] active_particles@[m]) as int] == (Particle {
                        position: samples@[m].0,
                        velocity: samples@[m].1,
                        radius,
                    }),
            decreases samples@.len() - k,
        {
            let ghost listed = active_particles@;
            let ghost handed_out = pa.allocated();
            let ghost pool = pool_a@;
            let (position, velocity) = samples[k];
            let i: usize = pa.insert();
            let particle = Particle { position, velocity, radius };
            pool_a.set(i, particle);
            pool_b.set(i, particle);
            active_particles.push(i);
            proof {
                assert(!listed.contains(i));
                lemma_push_to_distinct(listed, i);
                assert(active_particles@ =~= listed.push(i));
                assert forall|x: usize| active_particles@.contains(x) <==> pa.allocated().contains(
                    x,
                ) by {
                    assert(listed.contains(x) <==> handed_out.contains(x));
                }
                assert forall|m: int| 0 <= m < k + 1 implies pool_a@[(
                #[trigger] active_particles@[m]) as int] == (Particle {
                    position: samples@[m].0,
                    velocity: samples@[m].1,
                    radius,
                }) by {
                    if m < k {
                        assert(active_particles@[m] == listed[m]);
                        assert(listed.contains(listed[m]));
                        assert(pool[listed[m] as int] == (Particle {
                            position: samples@[m].0,
                            velocity: samples@[m].1,
                            radius,
                        }));
                    }
                }
            }
            k += 1;
        }
        let indices = active_particles.clone();
        assert(indices@ =~= active_particles@);
        si.reindex(pool_a.as_slice(), indices);
        // the pool that is read at first is the second: both hold the same
        ParticleStorage {
            index_allocator: pa,
            spatial_indexer: si,
            active_particles,
            pool_a,
            pool_b,
            _active_pool: true,
        }
    }

    /// Lets the pools change roles.
    pub fn toggle_set(&mut self)
        ensures
            final(self)._active_pool == !old(self)._active_pool,
            final(self).pool_a == old(self).pool_a,
            final(self).pool_b == old(self).pool_b,
            final(self).active_particles == old(self).active_particles,
            final(self).index_allocator == old(self).index_allocator,
            final(self).spatial_indexer == old(self).spatial_indexer,
            final(self).active() == old(self).inactive(),
            final(self).inactive() == old(self).active(),
    {
        self._active_pool = !self._active_pool
    }

    /// The pool that the pass writes.
    pub fn active_set(&self) -> (set: &Vec<Particle>)
        ensures
            set@ == self.active(),
    {
        if self._active_pool {
            &self.pool_a
        } else {
            &self.pool_b
        }
    }

    /// The pool that the pass reads.
    pub fn inactive_set(&self) -> (set: &Vec<Particle>)
        ensures
            set@ == self.inactive(),
    {
        if self._active_pool {
            &self.pool_b
        } else {
            &self.pool_a
        }
    }

    /// The pool that the pass writes, to be written.
    pub fn active_set_mut(&mut self) -> (set: &mut Vec<Particle>)
        ensures
            set@ == old(self).active(),
            final(self).active() == final(set)@,
            final(self).inactive() == old(self).inactive(),
            final(self)._active_pool == old(self)._active_pool,
            final(self).active_particles == old(self).active_particles,
            final(self).index_allocator == old(self).index_allocator,
            final(self).spatial_indexer == old(self).spatial_indexer,
    {
        if self._active_pool {
            &mut self.pool_a
        } else {
            &mut self.pool_b
        }
    }

    /// The pool that the pass reads, to be written.
    pub fn inactive_set_mut(&mut self) -> (set: &mut Vec<Particle>)
        ensures
            set@ == old(self).inactive(),
            final(self).inactive() == final(set)@,
            final(self).active() == old(self).active(),
            final(self)._active_pool == old(self)._active_pool,
            final(self).active_particles == old(self).active_particles,
            final(self).index_allocator == old(self).index_allocator,
            final(self).spatial_indexer == old(self).spatial_indexer,
    {
        if self._active_pool {
            &mut self.pool_b
        } else {
            &mut self.pool_a
        }
    }

    /// The position and the radius of each listed particle, as the pool that
    /// is read holds them.
    pub fn positions(&self) -> (shown: Vec<(Point3, u32)>)
        requires
            self.consistent(),
        ensures
            shown@.len() == self.active_particles@.len(),
            forall|k: int|
                0 <= k < shown@.len() ==> #[trigger] shown@[k] == (
                    self.inactive()[self.active_particles@[k] as int].position,
                    self.inactive()[self.active_particles@[k] as int].radius,
                ),
    {
        let mut shown: Vec<(Point3, u32)> = Vec::new();
        let mut k: usize = 0;
        while k < self.active_particles.len()
            invariant
                k <= self.active_particles@.len(),
                self.consistent(),
                shown@.len() == k,
                forall|m: int|
                    0 <= m < k ==> #[trigger] shown@[m] == (
                        self.inactive()[self.active_particles@[m] as int].position,
                        self.inactive()[self.active_particles@[m] as int].radius,
                    ),
            decreases self.active_particles@.len() - k,
        {
            let i: usize = self.active_particles[k];
            assert(self.active_particles@[k as int] < MAX_PARTICLES);
            let p = self.inactive_set()[i];
            shown.push((p.position, p.radius));
            k += 1;
        }
        shown
    }
}

/// The radius within which a particle looks for neighbours: its radius times
/// the given factor, or the largest radius there is.
pub open spec fn scaled_reach(radius: u32, factor: u32) -> u32 {
    if radius * factor > u32::MAX {
        u32::MAX
    } else {
        (radius * factor) as u32
    }
}

/// The radius within which a particle looks for neighbours.
pub fn reach(radius: u32, factor: u32) -> (r: u32)
    ensures
        r == scaled_reach(radius, factor),
{
    assert(radius * factor <= 0xFFFF_FFFF * 0xFFFF_FFFF) by (nonlinear_arith)
        requires
            0 <= radius <= 0xFFFF_FFFF,
            0 <= factor <= 0xFFFF_FFFF,
    ;
    let product: u64 = (radius as u64) * (factor as u64);
    if product > u32::MAX as u64 {
        u32::MAX
    } else {
        product as u32
    }
}

/// The places of the kills among the updates, in ascending order.
pub open spec fn kills(updates: Seq<ParticleUpdate>) -> Seq<usize>
    decreases updates.len(),
{
    if updates.len() == 0 {
        Seq::empty()
    } else {
        let before = kills(updates.drop_last());
        if updates.last() is Kill {
            before.push((updates.len() - 1) as usize)
        } else {
            before
        }
    }
}

/// The places of the fissions that find a free slot, in ascending order,
/// where `room` slots are free before the first update.
pub open spec fn splits(room: int, updates: Seq<ParticleUpdate>) -> Seq<int>
    decreases updates.len(),
{
    if updates.len() == 0 {
        Seq::empty()
    } else {
        let before = splits(room, updates.drop_last());
        if updates.last() is Fission && before.len() < room {
            before.push(updates.len() - 1)
        } else {
            before
        }
    }
}

/// Whether one of the updates is a fission that finds no free slot.
pub open spec fn refuses(room: int, updates: Seq<ParticleUpdate>) -> bool
    decreases updates.len(),
{
    if updates.len() == 0 {
        false
    } else {
        refuses(room, updates.drop_last()) || (updates.last() is Fission && splits(
            room,
            updates.drop_last(),
        ).len() >= room)
    }
}

/// Whether the pool `written` holds what the fissions that found a slot have
/// left: at the parent's slot the first child, at the sibling's slot the
/// second.
pub open spec fn fissions_written(
    written: Seq<Particle>,
    listed: Seq<usize>,
    updates: Seq<ParticleUpdate>,
    born: Seq<int>,
    siblings: Seq<usize>,
) -> bool {
    forall|k: int|
        0 <= k < born.len() ==> #[trigger] fission_written(
            written,
            listed,
            updates,
            born,
            siblings,
            k,
        )
}

/// Whether the pool `written` holds what the fission at place `k` among
/// those that found a slot has left.
pub open spec fn fission_written(
    written: Seq<Particle>,
    listed: Seq<usize>,
    updates: Seq<ParticleUpdate>,
    born: Seq<int>,
    siblings: Seq<usize>,
    k: int,
) -> bool {
    &&& 0 <= born[k] < updates.len()
    &&& updates[born[k]] is Fission
    &&& written[listed[born[k]] as int] == updates[born[k]]->Fission_0
    &&& written[siblings[k] as int] == updates[born[k]]->Fission_1
}

/// Whether the pool `written` holds, for each fission that found no slot,
/// the parent as it was read.
pub open spec fn refusals_kept(
    written: Seq<Particle>,
    read: Seq<Particle>,
    listed: Seq<usize>,
    updates: Seq<ParticleUpdate>,
    born: Seq<int>,
) -> bool {
    forall|j: int|
        0 <= j < updates.len() && (#[trigger] updates[j]) is Fission && !born.contains(j)
            ==> written[listed[j] as int] == read[listed[j] as int]
}

/// Whether the pool `written` holds each particle that lives on as its
/// update gave it.
pub open spec fn lives_written(
    written: Seq<Particle>,
    listed: Seq<usize>,
    updates: Seq<ParticleUpdate>,
) -> bool {
    forall|j: int|
        0 <= j < updates.len() && (#[trigger] updates[j]) is Live ==> written[listed[j] as int]
            == updates[j]->Live_0
}

/// Whether `after` is what a pass with the given updates makes of `before`,
/// where `siblings` are the slots that the fissions were given. Each update
/// is one that `judged` allows for its particle and the neighbours it sees.
/// The list is the old one with the siblings at its end and the killed
/// taken out; the pools have changed roles, and the pool that is read holds
/// what the updates gave.
pub open spec fn swept_with<A, S>(
    before: ParticleStorage<A, S>,
    after: ParticleStorage<A, S>,
    neighbour_radius: u32,
    judged: spec_fn(Particle, Seq<Particle>, ParticleUpdate) -> bool,
    refused: bool,
    updates: Seq<ParticleUpdate>,
    siblings: Seq<usize>,
) -> bool where A: PoolAllocator<MAX_PARTICLES>, S: SpatialIndexer<Particle> {
    let listed = before.active_particles@;
    let room = MAX_PARTICLES - listed.len();
    let born = splits(room, updates);
    &&& updates.len() == listed.len()
    &&& forall|j: int|
        0 <= j < updates.len() ==> judged(
            before.inactive()[listed[j] as int],
            before.seen_by(j, neighbour_radius),
            #[trigger] updates[j],
        )
    &&& siblings.len() == born.len()
    &&& (listed + siblings).no_duplicates()
    &&& all_below(siblings, MAX_PARTICLES as int)
    &&& after.active_particles@ == retired(listed + siblings, kills(updates))
    &&& after._active_pool == !before._active_pool
    &&& lives_written(after.inactive(), listed, updates)
    &&& fissions_written(after.inactive(), listed, updates, born, siblings)
    &&& refusals_kept(after.inactive(), before.inactive(), listed, updates, born)
    &&& refused == refuses(room, updates)
}

/// Whether `after` is what a pass makes of `before`, for some updates that
/// `judged` allows and some slots for the siblings; see `swept_with`.
#[verifier::opaque]
pub open spec fn swept_by<A, S>(
    before: ParticleStorage<A, S>,
    after: ParticleStorage<A, S>,
    neighbour_radius: u32,
    judged: spec_fn(Particle, Seq<Particle>, ParticleUpdate) -> bool,
    refused: bool,
) -> bool where A: PoolAllocator<MAX_PARTICLES>, S: SpatialIndexer<Particle> {
    exists|updates: Seq<ParticleUpdate>, siblings: Seq<usize>| #[trigger]
        swept_with(before, after, neighbour_radius, judged, refused, updates, siblings)
}

/// What a looser judge allows includes what a stricter one allows.
pub proof fn lemma_swept_by_weaker<A, S>(
    before: ParticleStorage<A, S>,
    after: ParticleStorage<A, S>,
    neighbour_radius: u32,
    strict: spec_fn(Particle, Seq<Particle>, ParticleUpdate) -> bool,
    loose: spec_fn(Particle, Seq<Particle>, ParticleUpdate) -> bool,
    refused: bool,
) where A: PoolAllocator<MAX_PARTICLES>, S: SpatialIndexer<Particle>
    requires
        swept_by(before, after, neighbour_radius, strict, refused),
        forall|p: Particle, seen: Seq<Particle>, u: ParticleUpdate|
            #[trigger] strict(p, seen, u) ==> loose(p, seen, u),
    ensures
        swept_by(before, after, neighbour_radius, loose, refused),
{
    reveal(swept_by);
    let (updates, siblings) = choose|updates: Seq<ParticleUpdate>, siblings: Seq<usize>| #[trigger]
        swept_with(before, after, neighbour_radius, strict, refused, updates, siblings);
    assert(swept_with(before, after, neighbour_radius, loose, refused, updates, siblings));
}

/// The judge that allows what `f` may decide.
pub open spec fn by_decision<F: Fn(Particle, Vec<Particle>) -> ParticleUpdate>(f: &F) -> spec_fn(
    Particle,
    Seq<Particle>,
    ParticleUpdate,
) -> bool {
    |p: Particle, seen: Seq<Particle>, u: ParticleUpdate| decided_by(f, p, seen, u)
}

/// Whether `update` is something that `f` may make of `particle` among the
/// neighbours `seen`.
pub open spec fn decided_by<F: Fn(Particle, Vec<Particle>) -> ParticleUpdate>(
    f: &F,
    particle: Particle,
    seen: Seq<Particle>,
    update: ParticleUpdate,
) -> bool {
    exists|neighbours: Vec<Particle>|
        neighbours@ == seen && #[trigger] f.ensures((particle, neighbours), update)
}

/// What is left of a list when the killed are taken out: the entries at the
/// places that `killed` does not name, and nothing else.
pub proof fn lemma_retired_members(listed: Seq<usize>, killed: Seq<usize>)
    requires
        ascending_below(killed, listed.len() as int),
        listed.no_duplicates(),
        listed.len() <= usize::MAX,
    ensures
        retired(listed, killed).no_duplicates(),
        forall|x: usize| retired(listed, killed).contains(x) ==> listed.contains(x),
        forall|p: int|
            0 <= p < listed.len() ==> (retired(listed, killed).contains(#[trigger] listed[p])
                <==> !killed.contains(p as usize)),
    decreases killed.len(),
{
    if killed.len() > 0 {
        let last = killed.last() as int;
        let fewer = listed.remove(last);
        let before = killed.drop_last();
        assert(killed[killed.len() - 1] < listed.len());
        lemma_remove_from_distinct(listed, last);
        assert forall|a: int| 0 <= a < before.len() implies before[a] < fewer.len() by {
            assert(killed[a] < killed[killed.len() - 1]);
        }
        assert forall|a: int, b: int| 0 <= a < b < before.len() implies before[a] < before[b] by {
            assert(killed[a] < killed[b]);
        }
        lemma_retired_members(fewer, before);
        assert forall|p: int| 0 <= p < listed.len() implies (retired(listed, killed).contains(
            #[trigger] listed[p],
        ) <==> !killed.contains(p as usize)) by {
            if p == last {
                assert(killed[killed.len() - 1] == p as usize);
                assert(!fewer.contains(listed[p]));
            } else if p < last {
                assert(fewer[p] == listed[p]);
                if before.contains(p as usize) {
                    let a = choose|a: int| 0 <= a < before.len() && before[a] == p as usize;
                    assert(killed[a] == p as usize);
                }
                if killed.contains(p as usize) {
                    let a = choose|a: int| 0 <= a < killed.len() && killed[a] == p as usize;
                    assert(before[a] == p as usize);
                }
            } else {
                assert(fewer[p - 1] == listed[p]);
                if before.contains((p - 1) as usize) {
                    let a = choose|a: int| 0 <= a < before.len() && before[a] == (p - 1) as usize;
                    assert(killed[a] < killed[killed.len() - 1]);
                }
                if killed.contains(p as usize) {
                    let a = choose|a: int| 0 <= a < killed.len() && killed[a] == p as usize;
                    if a < killed.len() - 1 {
                        assert(killed[a] < killed[killed.len() - 1]);
                    }
                }
            }
        }
    }
}

impl<A, S> ParticleStorage<A, S> where
    A: PoolAllocator<MAX_PARTICLES>,
    S: SpatialIndexer<Particle>,
 {
    /// The indexer names listed slots only.
    pub open spec fn indexed_are_listed(&self) -> bool {
        forall|k: usize|
            self.spatial_indexer.indices().contains(k) ==> self.active_particles@.contains(k)
    }

    /// The slots that the particle listed at `j` sees as neighbours: those
    /// of the indexer within its reach, itself left out.
    pub open spec fn neighbour_slots(&self, j: int, neighbour_radius: u32) -> Seq<usize> {
        let i = self.active_particles@[j];
        self.spatial_indexer.indices().filter(
            near(
                self.inactive(),
                self.inactive()[i as int].position,
                scaled_reach(self.inactive()[i as int].radius, neighbour_radius),
            ),
        ).filter(|k: usize| k != i)
    }

    /// The particles that the particle listed at `j` sees as neighbours, as
    /// the pool that is read holds them.
    pub open spec fn seen_by(&self, j: int, neighbour_radius: u32) -> Seq<Particle> {
        self.neighbour_slots(j, neighbour_radius).map_values(|k: usize| self.inactive()[k as int])
    }

    /// The slots that the particle listed at `j` sees as neighbours.
    pub fn neighbour_indices(&self, j: usize, neighbour_radius: u32) -> (found: Vec<usize>)
        requires
            self.wf(),
            j < self.active_particles@.len(),
        ensures
            found@ == self.neighbour_slots(j as int, neighbour_radius),
            all_below(found@, MAX_PARTICLES as int),
    {
        let i: usize = self.active_particles[j];
        assert(self.active_particles@[j as int] < MAX_PARTICLES);
        let particle = self.inactive_set()[i];
        let indices = self.spatial_indexer.get_indices_within(
            self.inactive_set().as_slice(),
            particle.position,
            reach(particle.radius, neighbour_radius),
        );
        let ghost within_reach = near(
            self.inactive(),
            particle.position,
            scaled_reach(particle.radius, neighbour_radius),
        );
        let ghost others = |k: usize| k != i;
        proof {
            assert(indices@.take(0).filter(others) =~= Seq::<usize>::empty()) by {
                reveal(Seq::filter);
            }
        }
        let mut found: Vec<usize> = Vec::new();
        let mut k: usize = 0;
        while k < indices.len()
            invariant
                k <= indices@.len(),
                others == (|k: usize| k != i),
                found@ == indices@.take(k as int).filter(others),
            decreases indices@.len() - k,
        {
            let n: usize = indices[k];
            proof {
                indices@.lemma_take_succ_push(k as int);
                indices@.take(k as int).lemma_filter_push(n, others);
            }
            if n != i {
                found.push(n);
            }
            k += 1;
        }
        proof {
            indices@.lemma_take_len();
            assert forall|m: int| 0 <= m < found@.len() implies (#[trigger] found@[m])
                < MAX_PARTICLES by {
                let x = found@[m];
                assert(found@.contains(x));
                indices@.lemma_filter_contains_rev(others, x);
                let at = choose|at: int| 0 <= at < indices@.len() && indices@[at] == x;
                self.spatial_indexer.indices().lemma_filter_pred(within_reach, at);
            }
        }
        found
    }

    /// The particles that the particle listed at `j` sees as neighbours, as
    /// the pool that is read holds them.
    pub fn neighbours(&self, j: usize, neighbour_radius: u32) -> (found: Vec<Particle>)
        requires
            self.wf(),
            j < self.active_particles@.len(),
        ensures
            found@ == self.seen_by(j as int, neighbour_radius),
    {
        let indices = self.neighbour_indices(j, neighbour_radius);
        let mut found: Vec<Particle> = Vec::new();
        let mut k: usize = 0;
        while k < indices.len()
            invariant
                k <= indices@.len(),
                self.pool_a@.len() == MAX_PARTICLES,
                self.pool_b@.len() == MAX_PARTICLES,
                all_below(indices@, MAX_PARTICLES as int),
                found@.len() == k,
                forall|m: int| 0 <= m < k ==> found@[m] == self.inactive()[indices@[m] as int],
            decreases indices@.len() - k,
        {
            let n: usize = indices[k];
            assert(indices@[k as int] < MAX_PARTICLES);
            found.push(self.inactive_set()[n]);
            k += 1;
        }
        assert(found@ =~= self.seen_by(j as int, neighbour_radius));
        found
    }

    /// Takes in the result of the pass for the particle listed at `j`. A
    /// kill is noted in `killed` and carried out when the pass ends. A fission
    /// gives the first child the parent's slot and the second a slot of the
    /// allocator, in both pools, and lists it; where no slot is free the
    /// parent is kept as it is and `true` is returned.
    pub fn record(&mut self, j: usize, update: ParticleUpdate, killed: &mut Vec<usize>) -> (refused:
        bool)
        requires
            old(self).wf(),
            old(self).indexed_are_listed(),
            j < old(self).active_particles@.len(),
        ensures
            final(self).wf(),
            final(self).indexed_are_listed(),
            final(self)._active_pool == old(self)._active_pool,
            final(self).spatial_indexer == old(self).spatial_indexer,
            refused == (update is Fission && old(self).active_particles@.len() >= MAX_PARTICLES),
            update is Fission && !refused ==> old(self).index_allocator.next_index()
                < MAX_PARTICLES && !old(self).active_particles@.contains(
                old(self).index_allocator.next_index(),
            ),
            match update {
                ParticleUpdate::Kill => {
                    &&& final(killed)@ == old(killed)@.push(j)
                    &&& final(self).active() == old(self).active()
                    &&& final(self).inactive() == old(self).inactive()
                    &&& final(self).active_particles@ == old(self).active_particles@
                },
                ParticleUpdate::Live(p) => {
                    &&& final(killed)@ == old(killed)@
                    &&& final(self).active() == old(self).active().update(
                        old(self).active_particles@[j as int] as int,
                        p,
                    )
                    &&& final(self).inactive() == old(self).inactive()
                    &&& final(self).active_particles@ == old(self).active_particles@
                },
                ParticleUpdate::Fission(first, second) => if refused {
                    &&& final(killed)@ == old(killed)@
                    &&& final(self).active() == old(self).active().update(
                        old(self).active_particles@[j as int] as int,
                        old(self).inactive()[old(self).active_particles@[j as int] as int],
                    )
                    &&& final(self).inactive() == old(self).inactive()
                    &&& final(self).active_particles@ == old(self).active_particles@
                } else {
                    let sibling = old(self).index_allocator.next_index();
                    &&& final(killed)@ == old(killed)@
                    &&& final(self).active() == old(self).active().update(
                        old(self).active_particles@[j as int] as int,
                        first,
                    ).update(sibling as int, second)
                    &&& final(self).inactive() == old(self).inactive().update(
                        sibling as int,
                        second,
                    )
                    &&& final(self).active_particles@ == old(self).active_particles@.push(sibling)
                },
            },
    {
        let ghost listed = self.active_particles@;
        let ghost handed_out = self.index_allocator.allocated();
        let ghost read = self.inactive();
        let i: usize = self.active_particles[j];
        assert(listed[j as int] < MAX_PARTICLES);
        proof {
            lemma_distinct_below_len(listed, MAX_PARTICLES as int);
        }
        match update {
            ParticleUpdate::Kill => {
                killed.push(j);
                false
            },
            ParticleUpdate::Live(p) => {
                self.active_set_mut().set(i, p);
                false
            },
            ParticleUpdate::Fission(first, second) => {
                if self.active_particles.len() >= MAX_PARTICLES {
                    let kept = self.inactive_set()[i];
                    self.active_set_mut().set(i, kept);
                    true
                } else {
                    let sibling_i: usize = self.index_allocator.insert();
                    self.active_particles.push(sibling_i);
                    self.active_set_mut().set(i, first);
                    self.active_set_mut().set(sibling_i, second);
                    self.inactive_set_mut().set(sibling_i, second);
                    proof {
                        assert(!listed.contains(sibling_i));
                        lemma_push_to_distinct(listed, sibling_i);
                        assert(self.active_particles@ =~= listed.push(sibling_i));
                        assert forall|x: usize|
                            self.active_particles@.contains(x)
                                <==> self.index_allocator.allocated().contains(x) by {
                            assert(listed.contains(x) <==> handed_out.contains(x));
                        }
                        assert forall|x: usize|
                            self.spatial_indexer.indices().contains(
                                x,
                            ) implies self.active_particles@.contains(x) by {
                            assert(listed.contains(x));
                        }
                        let held = self.spatial_indexer.indices();
                        assert forall|k: int| 0 <= k < held.len() implies self.inactive()[(
                        #[trigger] held[k]) as int].location() == read[held[k] as int].location() by {
                            assert(held.contains(held[k]));
                            assert(listed.contains(held[k]));
                        }
                        self.spatial_indexer.lemma_fits_while_held_items_stay(read, self.inactive());
                    }
                    false
                }
            },
        }
    }

    /// Carries out the kills of a pass: each position that `killed` names
    /// leaves the list, and its slot goes back to the allocator.
    pub fn retire(&mut self, killed: &Vec<usize>)
        requires
            old(self).consistent(),
            ascending_below(killed@, old(self).active_particles@.len() as int),
        ensures
            final(self).consistent(),
            final(self).active_particles@ == retired(old(self).active_particles@, killed@),
            final(self).pool_a == old(self).pool_a,
            final(self).pool_b == old(self).pool_b,
            final(self)._active_pool == old(self)._active_pool,
            final(self).spatial_indexer == old(self).spatial_indexer,
    {
        let ghost before = self.active_particles@;
        let mut m: usize = killed.len();
        assert(killed@.take(m as int) =~= killed@);
        while m > 0
            invariant
                m <= killed@.len(),
                self.consistent(),
                ascending_below(killed@.take(m as int), self.active_particles@.len() as int),
                retired(self.active_particles@, killed@.take(m as int)) == retired(before, killed@),
                self.pool_a == old(self).pool_a,
                self.pool_b == old(self).pool_b,
                self._active_pool == old(self)._active_pool,
                self.spatial_indexer == old(self).spatial_indexer,
            decreases m,
        {
            let ghost listed = self.active_particles@;
            let ghost handed_out = self.index_allocator.allocated();
            let ghost pending = killed@.take(m as int);
            m -= 1;
            let j: usize = killed[m];
            assert(pending[m as int] == j);
            let i: usize = self.active_particles[j];
            assert(listed.contains(i));
            self.index_allocator.remove(i);
            self.active_particles.remove(j);
            proof {
                lemma_remove_from_distinct(listed, j as int);
                assert(self.active_particles@ =~= listed.remove(j as int));
                assert forall|x: usize|
                    self.active_particles@.contains(x) <==> self.index_allocator.allocated().contains(
                        x,
                    ) by {
                    assert(listed.contains(x) <==> handed_out.contains(x));
                }
                assert forall|k: int| 0 <= k < self.active_particles@.len() implies (
                #[trigger] self.active_particles@[k]) < MAX_PARTICLES by {
                    let k0 = if k < j { k } else { k + 1 };
                    assert(self.active_particles@[k] == listed[k0]);
                }
                assert(pending.last() == j);
                assert(pending.drop_last() =~= killed@.take(m as int));
                assert forall|a: int| 0 <= a < m implies killed@.take(m as int)[a]
                    < self.active_particles@.len() by {
                    assert(pending[a] < pending[m as int]);
                }
                assert forall|a: int, b: int| 0 <= a < b < m implies killed@.take(m as int)[a]
                    < killed@.take(m as int)[b] by {
                    assert(pending[a] < pending[b]);
                }
            }
        }
    }

    /// Makes one pass over the listed particles. For each, `f` is given the
    /// particle and its neighbours within `neighbour_radius` radii, as the pass
    /// found them, and decides what becomes of it. New state goes to the pool
    /// that is written; at the end the kills are carried out, the pools change
    /// roles and the indexer is built anew; `swept_with` says what that
    /// leaves. Returns whether a fission found no free slot.
    pub fn update_particles<F>(&mut self, neighbour_radius: u32, f: &F) -> (refused: bool) where
        F: Fn(Particle, Vec<Particle>) -> ParticleUpdate,

        requires
            old(self).settled(),
            forall|p: Particle, n: Vec<Particle>| f.requires((p, n)),
        ensures
            final(self).settled(),
            final(self)._active_pool == !old(self)._active_pool,
            swept_by(*old(self), *final(self), neighbour_radius, by_decision(f), refused),
    {
        let mut particles_killed: Vec<usize> = Vec::new();
        let mut refused = false;
        let count: usize = self.active_particles.len();
        let ghost listed = self.active_particles@;
        let ghost read = self.inactive();
        let ghost entry = *self;
        let ghost mut updates: Seq<ParticleUpdate> = Seq::empty();
        let ghost mut siblings: Seq<usize> = Seq::empty();
        let ghost room = MAX_PARTICLES - count;
        proof {
            assert(listed + siblings =~= listed);
            lemma_same_members(
                self.spatial_indexer.indices(),
                self.active_particles@,
            );
        }
        let mut j: usize = 0;
        while j < count
            invariant
                j <= count <= self.active_particles@.len(),
                count == listed.len(),
                listed == entry.active_particles@,
                read == entry.inactive(),
                entry.wf(),
                self.wf(),
                self.indexed_are_listed(),
                forall|x: usize| self.spatial_indexer.indices().contains(x) ==> listed.contains(x),
                self._active_pool == old(self)._active_pool,
                self._active_pool == entry._active_pool,
                self.spatial_indexer == entry.spatial_indexer,
                ascending_below(particles_killed@, j as int),
                room == MAX_PARTICLES - count,
                updates.len() == j,
                forall|k: int| 0 <= k < count ==> self.active_particles@[k] == listed[k],
                forall|k: int|
                    0 <= k < count ==> self.inactive()[(#[trigger] listed[k]) as int]
                        == read[listed[k] as int],
                forall|k: int|
                    0 <= k < j ==> decided_by(
                        f,
                        read[listed[k] as int],
                        entry.seen_by(k, neighbour_radius),
                        #[trigger] updates[k],
                    ),
                particles_killed@ == kills(updates),
                self.active_particles@ == listed + siblings,
                siblings.len() == splits(MAX_PARTICLES - count, updates).len(),
                refused == refuses(MAX_PARTICLES - count, updates),
                lives_written(self.active(), listed, updates),
                fissions_written(
                    self.active(),
                    listed,
                    updates,
                    splits(MAX_PARTICLES - count, updates),
                    siblings,
                ),
                refusals_kept(
                    self.active(),
                    read,
                    listed,
                    updates,
                    splits(MAX_PARTICLES - count, updates),
                ),
                forall|p: Particle, n: Vec<Particle>| f.requires((p, n)),
            decreases count - j,
        {
            let i: usize = self.active_particles[j];
            assert(self.active_particles@[j as int] < MAX_PARTICLES);
            assert(listed[j as int] == i);
            let particle = self.inactive_set()[i];
            let neighbours = self.neighbours(j, neighbour_radius);
            proof {
                // the pass has changed nothing of what this particle sees
                let held = self.spatial_indexer.indices();
                let origin = read[i as int].position;
                let reach = scaled_reach(read[i as int].radius, neighbour_radius);
                let now = near(self.inactive(), origin, reach);
                let then = near(read, origin, reach);
                assert forall|k: int| 0 <= k < held.len() implies self.inactive()[(
                #[trigger] held[k]) as int] == read[held[k] as int] by {
                    assert(held.contains(held[k]));
                    assert(listed.contains(held[k]));
                    let m = choose|m: int| 0 <= m < listed.len() && listed[m] == held[k];
                    assert(self.inactive()[listed[m] as int] == read[listed[m] as int]);
                }
                assert forall|k: int| 0 <= k < held.len() implies now(#[trigger] held[k]) == then(
                    held[k],
                ) by {
                    assert(self.inactive()[held[k] as int] == read[held[k] as int]);
                }
                lemma_filter_agrees(held, now, then);
                let slots = entry.neighbour_slots(j as int, neighbour_radius);
                assert(self.neighbour_slots(j as int, neighbour_radius) == slots);
                assert forall|k: int| 0 <= k < slots.len() implies self.inactive()[(
                #[trigger] slots[k]) as int] == read[slots[k] as int] by {
                    let x = slots[k];
                    assert(slots.contains(x));
                    held.filter(then).lemma_filter_contains_rev(|n: usize| n != i, x);
                    held.lemma_filter_contains_rev(then, x);
                    let m = choose|m: int| 0 <= m < held.len() && held[m] == x;
                    assert(self.inactive()[held[m] as int] == read[held[m] as int]);
                }
                assert(self.seen_by(j as int, neighbour_radius) =~= entry.seen_by(
                    j as int,
                    neighbour_radius,
                ));
            }
            let ghost noted = particles_killed@;
            let ghost written = self.active();
            let ghost kept = self.inactive();
            let ghost free = self.index_allocator.next_index();
            let ghost now_listed = self.active_particles@;
            let ghost seen = neighbours;
            let update = f(particle, neighbours);
            let rejected = self.record(j, update, &mut particles_killed);
            if rejected {
                refused = true;
            }
            proof {
                assert forall|a: int, b: int|
                    0 <= a < b < particles_killed@.len() implies particles_killed@[a]
                    < particles_killed@[b] by {
                    if b < noted.len() {
                        assert(particles_killed@[a] == noted[a]);
                        assert(particles_killed@[b] == noted[b]);
                    } else {
                        assert(particles_killed@[a] == noted[a]);
                    }
                }
                // what the record has written, case by case
                assert(now_listed[j as int] == i);
                match update {
                    ParticleUpdate::Kill => {
                        assert(self.inactive() == kept);
                        assert(self.active() == written);
                    },
                    ParticleUpdate::Live(p) => {
                        assert(self.inactive() == kept);
                        assert(self.active() == written.update(i as int, p));
                    },
                    ParticleUpdate::Fission(first, second) => {
                        if rejected {
                            assert(self.inactive() == kept);
                            assert(self.active() == written.update(i as int, kept[i as int]));
                        } else {
                            assert(!now_listed.contains(free));
                            assert(self.inactive() == kept.update(free as int, second));
                            assert(self.active() == written.update(i as int, first).update(
                                free as int,
                                second,
                            ));
                        }
                    },
                }
                let longer = updates.push(update);
                assert(longer.drop_last() =~= updates);
                assert(longer.last() == update);
                let born = splits(room, updates);
                let accepted = update is Fission && !rejected;
                let more = if accepted { siblings.push(free) } else { siblings };
                let born_now = splits(room, longer);
                assert(now_listed.len() == count + siblings.len());
                assert(rejected == (update is Fission && born.len() >= room));
                assert(born_now == if accepted { born.push(j as int) } else { born });
                assert(self.active_particles@ =~= listed + more);
                assert forall|k: int| 0 <= k < count implies self.active_particles@[k]
                    == listed[k] by {
                    assert(now_listed[k] == listed[k]);
                }
                assert forall|k: int| 0 <= k < count implies self.inactive()[(
                #[trigger] listed[k]) as int] == read[listed[k] as int] by {
                    assert(kept[listed[k] as int] == read[listed[k] as int]);
                    assert(now_listed[k] == listed[k]);
                    assert(now_listed.contains(now_listed[k]));
                    assert(now_listed[k] < MAX_PARTICLES);
                    assert(listed[k] != free || self.inactive() == kept);
                }
                assert forall|k: int| 0 <= k < j + 1 implies decided_by(
                    f,
                    read[listed[k] as int],
                    entry.seen_by(k, neighbour_radius),
                    #[trigger] longer[k],
                ) by {
                    if k < j {
                        assert(longer[k] == updates[k]);
                    } else {
                        assert(f.ensures((read[listed[k] as int], seen), longer[k]));
                    }
                }
                // the slots of the particles seen so far are all different
                assert forall|k: int| 0 <= k < j implies listed[k] != i && listed[k]
                    < MAX_PARTICLES && (accepted ==> listed[k] != free) by {
                    assert(now_listed[k] == listed[k]);
                    assert(now_listed[j as int] == i);
                    assert(now_listed.contains(now_listed[k]));
                }
                assert forall|k: int| 0 <= k < siblings.len() implies siblings[k] != i
                    && siblings[k] < MAX_PARTICLES && (accepted ==> siblings[k] != free) by {
                    assert(now_listed[count + k] == siblings[k]);
                    assert(now_listed[j as int] == i);
                    assert(now_listed.contains(now_listed[count + k]));
                }
                assert(lives_written(self.active(), listed, longer)) by {
                    assert forall|k: int| 0 <= k < longer.len() && (#[trigger] longer[k]) is Live
                        implies self.active()[listed[k] as int] == longer[k]->Live_0 by {
                        if k < j {
                            assert(longer[k] == updates[k]);
                            assert(written[listed[k] as int] == updates[k]->Live_0);
                        }
                    }
                }
                assert forall|k: int| 0 <= k < born_now.len() implies #[trigger] fission_written(
                    self.active(),
                    listed,
                    longer,
                    born_now,
                    more,
                    k,
                ) by {
                    if k < born.len() {
                        assert(born_now[k] == born[k]);
                        assert(more[k] == siblings[k]);
                        assert(fission_written(written, listed, updates, born, siblings, k));
                        let b = born[k];
                        assert(0 <= b < j);
                        assert(longer[b] == updates[b]);
                        assert(now_listed[b] == listed[b]);
                        assert(now_listed[j as int] == i);
                        assert(now_listed[count + k] == siblings[k]);
                        assert(now_listed.contains(now_listed[b]));
                        assert(now_listed.contains(now_listed[count + k]));
                        assert(listed[b] != i && siblings[k] != i);
                        assert(listed[b] < MAX_PARTICLES && siblings[k] < MAX_PARTICLES);
                        assert(accepted ==> listed[b] != free && siblings[k] != free);
                        assert(self.active()[listed[b] as int] == written[listed[b] as int]);
                        assert(self.active()[siblings[k] as int] == written[siblings[k] as int]);
                    } else {
                        assert(accepted);
                        assert(k == born.len());
                        assert(born_now[k] == j);
                        assert(more[k] == free);
                        assert(now_listed.contains(now_listed[j as int]));
                        assert(i != free);
                        assert(longer[j as int] == update);
                    }
                }
                assert(fissions_written(self.active(), listed, longer, born_now, more));
                assert(refusals_kept(self.active(), read, listed, longer, born_now)) by {
                    assert forall|k: int|
                        0 <= k < longer.len() && (#[trigger] longer[k]) is Fission
                            && !born_now.contains(k) implies self.active()[listed[k] as int]
                        == read[listed[k] as int] by {
                        if k < j {
                            assert(longer[k] == updates[k]);
                            if born.contains(k) {
                                let m = choose|m: int| 0 <= m < born.len() && born[m] == k;
                                assert(born_now[m] == k);
                            }
                            assert(written[listed[k] as int] == read[listed[k] as int]);
                        } else {
                            if accepted {
                                assert(born_now[born.len() as int] == j);
                            }
                            assert(kept[i as int] == read[i as int]);
                        }
                    }
                }
                assert(particles_killed@ == kills(longer));
                siblings = more;
                updates = longer;
            }
            j += 1;
        }
        let ghost swept = self.active_particles@;
        let ghost written = self.active();
        self.retire(&particles_killed);
        self.toggle_set();
        let indices = self.active_particles.clone();
        assert(indices@ =~= self.active_particles@);
        if self._active_pool {
            self.spatial_indexer.reindex(self.pool_b.as_slice(), indices);
        } else {
            self.spatial_indexer.reindex(self.pool_a.as_slice(), indices);
        }
        proof {
            assert(self.inactive() == written);
            assert(all_below(siblings, MAX_PARTICLES as int)) by {
                assert forall|k: int| 0 <= k < siblings.len() implies (#[trigger] siblings[k])
                    < MAX_PARTICLES by {
                    assert(swept[count + k] == siblings[k]);
                }
            }
            assert(swept_with(
                entry,
                *self,
                neighbour_radius,
                by_decision(f),
                refused,
                updates,
                siblings,
            ));
            reveal(swept_by);
        }
        refused
    }
}

/// The numbers that steer a simulation. Fractions are counted in
/// thousandths, and so are the energy and the time step.
#[derive(Debug, Copy, Clone, PartialEq, Eq, Structural)]
pub struct Parameters {
    /// The time that one pass stands for, in thousandths of a time unit.
    pub time_step: u64,
    /// The number of passes that one step makes.
    pub iterations_per_step: usize,
    /// The gain that keeps particles on the surface and energizes the system.
    pub feedback: u32,
    /// The amplitude of the repulsion, in thousandths.
    pub repulsion_amplitude: u32,
    /// The share of the amplitude that is the desired energy, in thousandths.
    pub desired_energy_fraction: u32,
    /// The radius that particles should have.
    pub desired_repulsion_radius: u32,
    /// The share of the desired radius that is the largest radius, in
    /// thousandths.
    pub max_repulsion_radius_fraction: u32,
    /// A particle is at rest while its speed is below this many of its radii.
    pub equilibrium_speed: u32,
    /// The share of the desired energy above which a particle may split, in
    /// thousandths.
    pub fission_faction: u32,
    /// The share of the desired radius below which a particle may die, in
    /// thousandths.
    pub death_fraction: u32,
    /// A particle looks for neighbours within this many of its radii.
    pub neighbour_radius: u32,
}

impl Parameters {
    /// The largest radius that a particle may have before it must split:
    /// the desired radius times its fraction, rounded down.
    pub open spec fn max_radius(self) -> int {
        self.desired_repulsion_radius * self.max_repulsion_radius_fraction / 1000
    }

    /// The energy that a particle should feel, in thousandths: the
    /// amplitude times its fraction, rounded down.
    pub open spec fn energy_wanted(self) -> int {
        self.repulsion_amplitude * self.desired_energy_fraction / 1000
    }

    /// The largest radius that a particle may have before it must split.
    pub fn max_repulsion_radius(&self) -> (radius: u64)
        ensures
            radius == self.max_radius(),
    {
        assert(self.desired_repulsion_radius * self.max_repulsion_radius_fraction <= 0xFFFF_FFFF
            * 0xFFFF_FFFF) by (nonlinear_arith)
            requires
                0 <= self.desired_repulsion_radius <= 0xFFFF_FFFF,
                0 <= self.max_repulsion_radius_fraction <= 0xFFFF_FFFF,
        ;
        (self.desired_repulsion_radius as u64) * (self.max_repulsion_radius_fraction as u64)
            / 1000
    }

    /// The energy that a particle should feel, in thousandths.
    pub fn desired_energy(&self) -> (energy: u64)
        ensures
            energy == self.energy_wanted(),
    {
        assert(self.repulsion_amplitude * self.desired_energy_fraction <= 0xFFFF_FFFF
            * 0xFFFF_FFFF) by (nonlinear_arith)
            requires
                0 <= self.repulsion_amplitude <= 0xFFFF_FFFF,
                0 <= self.desired_energy_fraction <= 0xFFFF_FFFF,
        ;
        (self.repulsion_amplitude as u64) * (self.desired_energy_fraction as u64) / 1000
    }
}

impl Default for Parameters {
    fn default() -> (parameters: Self)
        ensures
            parameters == (Parameters {
                time_step: 30,
                feedback: 15,
                repulsion_amplitude: 6000,
                desired_energy_fraction: 800,
                desired_repulsion_radius: 0,
                max_repulsion_radius_fraction: 1200,
                equilibrium_speed: 6,
                fission_faction: 200,
                death_fraction: 700,
                iterations_per_step: 1,
                neighbour_radius: 3,
            }),
    {
        Parameters {
            time_step: 30,
            feedback: 15,
            repulsion_amplitude: 6000,
            desired_energy_fraction: 800,
            desired_repulsion_radius: 0,
            max_repulsion_radius_fraction: 1200,
            equilibrium_speed: 6,
            fission_faction: 200,
            death_fraction: 700,
            iterations_per_step: 1,
            neighbour_radius: 3,
        }
    }
}

/// The update that follows from a particle's fate and from what could be
/// computed for it: death kills; fission takes the two children and motion
/// the moved particle, each with a radius above nothing, and where that is
/// missing the particle lives on as it is.
pub open spec fn outcome_of(
    particle: Particle,
    fate: Fate,
    children: Option<(Particle, Particle)>,
    moved: Option<Particle>,
) -> ParticleUpdate {
    match fate {
        Fate::Death => ParticleUpdate::Kill,
        Fate::Fission => match children {
            Some((first, second)) => if first.radius > 0 && second.radius > 0 {
                ParticleUpdate::Fission(first, second)
            } else {
                ParticleUpdate::Live(particle)
            },
            None => ParticleUpdate::Live(particle),
        },
        Fate::Motion => match moved {
            Some(after) => if after.radius > 0 {
                ParticleUpdate::Live(after)
            } else {
                ParticleUpdate::Live(particle)
            },
            None => ParticleUpdate::Live(particle),
        },
    }
}

/// The update that follows from a particle's fate and from what could be
/// computed for it.
pub fn outcome(
    particle: Particle,
    fate: Fate,
    children: Option<(Particle, Particle)>,
    moved: Option<Particle>,
) -> (update: ParticleUpdate)
    ensures
        update == outcome_of(particle, fate, children, moved),
{
    match fate {
        Fate::Death => ParticleUpdate::Kill,
        Fate::Fission => match children {
            Some((first, second)) => if first.radius > 0 && second.radius > 0 {
                ParticleUpdate::Fission(first, second)
            } else {
                ParticleUpdate::Live(particle)
            },
            None => ParticleUpdate::Live(particle),
        },
        Fate::Motion => match moved {
            Some(after) => if after.radius > 0 {
                ParticleUpdate::Live(after)
            } else {
                ParticleUpdate::Live(particle)
            },
            None => ParticleUpdate::Live(particle),
        },
    }
}

/// Whether `update` is what the rules of relaxation, with the parameters
/// given, make of a particle, given the draw that decided on its death and what
/// the caller's functions gave: the energy is asked for where the particle
/// rests and does not die, the children where it splits, the moved particle
/// where it moves on.
pub open spec fn governed<E, S, A>(
    parameters: Parameters,
    particle: Particle,
    energy_of: &E,
    split: &S,
    advance: &A,
    update: ParticleUpdate,
    draw: u32,
    neighbours: Vec<Particle>,
    energy: u64,
    children: Option<(Particle, Particle)>,
    moved: Option<Particle>,
) -> bool where
    E: Fn(Particle, &Vec<Particle>) -> u64,
    S: Fn(Particle) -> Option<(Particle, Particle)>,
    A: Fn(Particle, &Vec<Particle>) -> Option<Particle>,
 {
    let fate = fate_at_speed(
        particle.velocity,
        particle.radius,
        energy,
        parameters.desired_repulsion_radius,
        draw,
        parameters.equilibrium_speed,
    );
    &&& slower_than(particle.velocity, particle.radius, parameters.equilibrium_speed) && !dies(
        particle.radius,
        parameters.desired_repulsion_radius,
        draw,
    ) ==> energy_of.ensures((particle, &neighbours), energy)
    &&& fate == Fate::Fission ==> split.ensures((particle,), children)
    &&& fate == Fate::Motion ==> advance.ensures((particle, &neighbours), moved)
    &&& update == outcome_of(particle, fate, children, moved)
}

/// Whether `update` is what the rules of relaxation, with the parameters
/// given, make of a particle that sees the neighbours `seen`, for some draw
/// and for some results of the caller's functions on the particle and these
/// neighbours.
pub open spec fn obeys<E, S, A>(
    parameters: Parameters,
    particle: Particle,
    seen: Seq<Particle>,
    energy_of: &E,
    split: &S,
    advance: &A,
    update: ParticleUpdate,
) -> bool where
    E: Fn(Particle, &Vec<Particle>) -> u64,
    S: Fn(Particle) -> Option<(Particle, Particle)>,
    A: Fn(Particle, &Vec<Particle>) -> Option<Particle>,
 {
    exists|
        draw: u32,
        neighbours: Vec<Particle>,
        energy: u64,
        children: Option<(Particle, Particle)>,
        moved: Option<Particle>,
    |
        neighbours@ == seen && #[trigger] governed(
            parameters,
            particle,
            energy_of,
            split,
            advance,
            update,
            draw,
            neighbours,
            energy,
            children,
            moved,
        )
}

/// Decides what becomes of a particle among its neighbours by the rules of
/// relaxation, with the parameters given, and has the state that goes with
/// its fate computed by the caller's functions.
pub fn govern<E, S, A>(
    parameters: &Parameters,
    particle: Particle,
    neighbours: Vec<Particle>,
    energy_of: &E,
    split: &S,
    advance: &A,
) -> (update: ParticleUpdate) where
    E: Fn(Particle, &Vec<Particle>) -> u64,
    S: Fn(Particle) -> Option<(Particle, Particle)>,
    A: Fn(Particle, &Vec<Particle>) -> Option<Particle>,

    requires
        forall|p: Particle, n: &Vec<Particle>| energy_of.requires((p, n)),
        forall|p: Particle| split.requires((p,)),
        forall|p: Particle, n: &Vec<Particle>| advance.requires((p, n)),
    ensures
        obeys(*parameters, particle, neighbours@, energy_of, split, advance, update),
{
    let desired = parameters.desired_repulsion_radius;
    if is_slower_than(&particle.velocity, particle.radius, parameters.equilibrium_speed) {
        let die = should_die(particle.radius, desired);
        let ghost draw = choose|draw: u32| die == dies(particle.radius, desired, draw);
        if die {
            let update = outcome(particle, Fate::Death, None, None);
            proof {
                assert(governed(
                    *parameters,
                    particle,
                    energy_of,
                    split,
                    advance,
                    update,
                    draw,
                    neighbours,
                    0,
                    None,
                    None,
                ));
            }
            return update;
        }
        let re = energy_of(particle, &neighbours);
        if should_fission_energy(particle.radius, re, desired) || should_fission_radius(
            particle.radius,
            desired,
        ) {
            let children = split(particle);
            let update = outcome(particle, Fate::Fission, children, None);
            proof {
                assert(governed(
                    *parameters,
                    particle,
                    energy_of,
                    split,
                    advance,
                    update,
                    draw,
                    neighbours,
                    re,
                    children,
                    None,
                ));
            }
            return update;
        }
        let moved = advance(particle, &neighbours);
        let update = outcome(particle, Fate::Motion, None, moved);
        proof {
            assert(governed(
                *parameters,
                particle,
                energy_of,
                split,
                advance,
                update,
                draw,
                neighbours,
                re,
                None,
                moved,
            ));
        }
        update
    } else {
        let moved = advance(particle, &neighbours);
        let update = outcome(particle, Fate::Motion, None, moved);
        proof {
            assert(governed(
                *parameters,
                particle,
                energy_of,
                split,
                advance,
                update,
                0,
                neighbours,
                0,
                None,
                moved,
            ));
        }
        update
    }
}

/// The judge that allows what the rules of relaxation, with the parameters
/// given, make of a particle; see `obeys`.
pub open spec fn by_the_rules<E, S, A>(
    parameters: Parameters,
    energy_of: &E,
    split: &S,
    advance: &A,
) -> spec_fn(Particle, Seq<Particle>, ParticleUpdate) -> bool where
    E: Fn(Particle, &Vec<Particle>) -> u64,
    S: Fn(Particle) -> Option<(Particle, Particle)>,
    A: Fn(Particle, &Vec<Particle>) -> Option<Particle>,
 {
    |p: Particle, seen: Seq<Particle>, u: ParticleUpdate|
        obeys(parameters, p, seen, energy_of, split, advance, u)
}

/// Whether each storage of the chain is what a pass by the rules makes of
/// the one before it, the pass at place `k` refusing a fission exactly when
/// `flags[k]` says so.
pub open spec fn linked<E, S, A>(
    chain: Seq<ParticleStorage<StackPoolAllocator<MAX_PARTICLES>, KdIndexer>>,
    flags: Seq<bool>,
    parameters: Parameters,
    energy_of: &E,
    split: &S,
    advance: &A,
) -> bool where
    E: Fn(Particle, &Vec<Particle>) -> u64,
    S: Fn(Particle) -> Option<(Particle, Particle)>,
    A: Fn(Particle, &Vec<Particle>) -> Option<Particle>,
 {
    &&& chain.len() == flags.len() + 1
    &&& forall|k: int|
        0 <= k < flags.len() ==> #[trigger] swept_by(
            chain[k],
            chain[k + 1],
            parameters.neighbour_radius,
            by_the_rules(parameters, energy_of, split, advance),
            flags[k],
        )
}

/// A particle storage with its parameters and its clock.
pub struct ParticleSystem {
    pub parameters: Parameters,
    pub storage: ParticleStorage<StackPoolAllocator<MAX_PARTICLES>, KdIndexer>,
    pub time: u64,
}

impl ParticleSystem {
    /// Creates a system with a particle of the desired radius for each
    /// sample, a position with a velocity.
    pub fn new(parameters: Parameters, samples: Vec<(Point3, Vector3)>) -> (system: Self)
        requires
            samples@.len() <= MAX_PARTICLES,
        ensures
            system.storage.settled(),
            system.parameters == parameters,
            system.time == 0,
            system.storage.active_particles@.len() == samples@.len(),
            forall|k: int|
                0 <= k < samples@.len() ==> system.storage.inactive()[(
                #[trigger] system.storage.active_particles@[k]) as int] == (Particle {
                    position: samples@[k].0,
                    velocity: samples@[k].1,
                    radius: parameters.desired_repulsion_radius,
                }),
    {
        let storage = ParticleStorage::init_with_samples(
            StackPoolAllocator::new(),
            KdIndexer::new(),
            samples,
            parameters.desired_repulsion_radius,
        );
        ParticleSystem { parameters, storage, time: 0 }
    }

    /// Makes one pass, after which the clock moves on by the time step. A
    /// particle whose speed is below the equilibrium speed of the parameters
    /// dies where the rules of relaxation say so, and splits where it is
    /// crowded or too large; every other particle moves on. `energy_of` gives
    /// the repulsion energy of a particle among its neighbours, `split` its
    /// two children, `advance` the particle after its motion; where the last
    /// two give nothing the particle is kept as it is. Returns whether a
    /// fission found no free slot.
    pub fn pass<E, S, A>(&mut self, energy_of: &E, split: &S, advance: &A) -> (refused: bool) where
        E: Fn(Particle, &Vec<Particle>) -> u64,
        S: Fn(Particle) -> Option<(Particle, Particle)>,
        A: Fn(Particle, &Vec<Particle>) -> Option<Particle>,

        requires
            old(self).storage.settled(),
            forall|p: Particle, n: &Vec<Particle>| energy_of.requires((p, n)),
            forall|p: Particle| split.requires((p,)),
            forall|p: Particle, n: &Vec<Particle>| advance.requires((p, n)),
        ensures
            final(self).storage.settled(),
            final(self).parameters == old(self).parameters,
            final(self).time == clock_after(old(self).time, old(self).parameters.time_step, 1),
            swept_by(
                old(self).storage,
                final(self).storage,
                old(self).parameters.neighbour_radius,
                by_the_rules(old(self).parameters, energy_of, split, advance),
                refused,
            ),
    {
        let parameters = self.parameters;
        let rule = |particle: Particle, neighbours: Vec<Particle>| -> (update: ParticleUpdate)
            ensures
                obeys(parameters, particle, neighbours@, energy_of, split, advance, update),
            { govern(&parameters, particle, neighbours, energy_of, split, advance) };
        let ghost entry = self.storage;
        let refused = self.storage.update_particles(self.parameters.neighbour_radius, &rule);
        proof {
            let strict = by_decision(&rule);
            let loose = by_the_rules(parameters, energy_of, split, advance);
            assert forall|p: Particle, seen: Seq<Particle>, u: ParticleUpdate| #[trigger]
                strict(p, seen, u) implies loose(p, seen, u) by {
                assert(decided_by(&rule, p, seen, u));
                let neighbours = choose|neighbours: Vec<Particle>|
                    neighbours@ == seen && #[trigger] rule.ensures((p, neighbours), u);
                assert(rule.ensures((p, neighbours), u));
            }
            lemma_swept_by_weaker(
                entry,
                self.storage,
                parameters.neighbour_radius,
                strict,
                loose,
                refused,
            );
        }
        // the clock is not used by the simulation, but lets others keep in step
        self.time = if self.time > u64::MAX - self.parameters.time_step {
            u64::MAX
        } else {
            self.time + self.parameters.time_step
        };
        refused
    }

    /// Advances the simulation by one step: as many passes as the
    /// parameters ask for, each as `pass` makes it. Returns whether a
    /// fission found no free slot in one of them.
    pub fn advance_simulation<E, S, A>(&mut self, energy_of: &E, split: &S, advance: &A) -> (refused:
        bool) where
        E: Fn(Particle, &Vec<Particle>) -> u64,
        S: Fn(Particle) -> Option<(Particle, Particle)>,
        A: Fn(Particle, &Vec<Particle>) -> Option<Particle>,

        requires
            old(self).storage.settled(),
            forall|p: Particle, n: &Vec<Particle>| energy_of.requires((p, n)),
            forall|p: Particle| split.requires((p,)),
            forall|p: Particle, n: &Vec<Particle>| advance.requires((p, n)),
        ensures
            final(self).storage.settled(),
            final(self).parameters == old(self).parameters,
            final(self).time == clock_after(
                old(self).time,
                old(self).parameters.time_step,
                old(self).parameters.iterations_per_step as int,
            ),
            exists|
                chain: Seq<ParticleStorage<StackPoolAllocator<MAX_PARTICLES>, KdIndexer>>,
                flags: Seq<bool>,
            |
                flags.len() == old(self).parameters.iterations_per_step && #[trigger] linked(
                    chain,
                    flags,
                    old(self).parameters,
                    energy_of,
                    split,
                    advance,
                ) && chain[0] == old(self).storage && chain.last() == final(self).storage
                    && refused == flags.contains(true),
            old(self).parameters.iterations_per_step == 0 ==> final(self).storage == old(
                self,
            ).storage && !refused,
    {
        let mut refused = false;
        let mut done: usize = 0;
        let ghost start = self.time;
        let ghost step = self.parameters.time_step;
        let ghost mut chain: Seq<ParticleStorage<StackPoolAllocator<MAX_PARTICLES>, KdIndexer>> =
            seq![self.storage];
        let ghost mut flags: Seq<bool> = Seq::empty();
        while done < self.parameters.iterations_per_step
            invariant
                done <= self.parameters.iterations_per_step,
                self.storage.settled(),
                self.parameters == old(self).parameters,
                step == self.parameters.time_step,
                self.time == clock_after(start, step, done as int),
                done == 0 ==> self.storage == old(self).storage && !refused,
                flags.len() == done,
                linked(chain, flags, self.parameters, energy_of, split, advance),
                chain[0] == old(self).storage,
                chain.last() == self.storage,
                refused == flags.contains(true),
                forall|p: Particle, n: &Vec<Particle>| energy_of.requires((p, n)),
                forall|p: Particle| split.requires((p,)),
                forall|p: Particle, n: &Vec<Particle>| advance.requires((p, n)),
            decreases self.parameters.iterations_per_step - done,
        {
            proof {
                assert((done + 1) * step == done * step + step) by (nonlinear_arith);
                assert(0 <= done * step) by (nonlinear_arith)
                    requires
                        0 <= done,
                        0 <= step,
                ;
            }
            let ghost entered = self.storage;
            let now = self.pass(energy_of, split, advance);
            if now {
                refused = true;
            }
            proof {
                let longer = chain.push(self.storage);
                let more = flags.push(now);
                assert forall|k: int| 0 <= k < more.len() implies #[trigger] swept_by(
                    longer[k],
                    longer[k + 1],
                    self.parameters.neighbour_radius,
                    by_the_rules(self.parameters, energy_of, split, advance),
                    more[k],
                ) by {
                    if k < done {
                        assert(longer[k] == chain[k]);
                        assert(longer[k + 1] == chain[k + 1]);
                        assert(more[k] == flags[k]);
                    } else {
                        assert(longer[k] == entered);
                    }
                }
                assert(more.contains(true) == (flags.contains(true) || now)) by {
                    if flags.contains(true) {
                        let k = choose|k: int| 0 <= k < flags.len() && flags[k] == true;
                        assert(more[k] == true);
                    }
                    if now {
                        assert(more[done as int] == true);
                    }
                    if more.contains(true) {
                        let k = choose|k: int| 0 <= k < more.len() && more[k] == true;
                        if k < done {
                            assert(flags[k] == true);
                        }
                    }
                }
                chain = longer;
                flags = more;
            }
            done += 1;
        }
        refused
    }

    /// The position and the radius of each particle.
    pub fn positions(&self) -> (shown: Vec<(Point3, u32)>)
        requires
            self.storage.consistent(),
        ensures
            shown@.len() == self.storage.active_particles@.len(),
            forall|k: int|
                0 <= k < shown@.len() ==> #[trigger] shown@[k] == (
                    self.storage.inactive()[self.storage.active_particles@[k] as int].position,
                    self.storage.inactive()[self.storage.active_particles@[k] as int].radius,
                ),
    {
        self.storage.positions()
    }
}

} // verus!
