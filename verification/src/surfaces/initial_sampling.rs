//! The first covering of a surface: a front of accepted points that grows
//! from a seed until no new point finds room.
//!
//! Every accepted point is asked for its siblings, the points around it on
//! the surface; a sibling is accepted where no accepted point lies within
//! nineteen tenths of the repulsion radius of it, exactly, and is then asked
//! in turn.

use vstd::prelude::*;
use crate::geometry::{dist_sq, square, within, Point3};
use crate::sequences::lemma_filter_members;
use crate::spatial_indexer::kd_indexer::{KdContainer, _get_indices_within};
use crate::spatial_indexer::{near, Positioned};

verus! {

/// Whether two points are too close for both to be accepted: their distance
/// is at most nineteen tenths of the repulsion radius. The comparison is made
/// on the squares, a hundredfold, so that nothing is rounded.
pub open spec fn too_close(a: Point3, b: Point3, repulsion_radius: u32) -> bool {
    100 * dist_sq(a, b) <= 361 * square(repulsion_radius as int)
}

/// No point is too close to a point before it.
pub open spec fn separated(points: Seq<Point3>, repulsion_radius: u32) -> bool {
    forall|a: int, b: int|
        0 <= a < b < points.len() ==> !too_close(points[a], points[b], repulsion_radius)
}

/// Whether `point` is a sibling of `parent`: one of the points that
/// `siblings_of` may give for it.
pub open spec fn sibling_of<F: Fn(Point3) -> Vec<Point3>>(
    siblings_of: &F,
    parent: Point3,
    point: Point3,
) -> bool {
    exists|family: Vec<Point3>| #[trigger]
        siblings_of.ensures((parent,), family) && family@.contains(point)
}

/// Every point is a sibling of the seed or of a point before it.
pub open spec fn descends_from<F: Fn(Point3) -> Vec<Point3>>(
    siblings_of: &F,
    seed: Point3,
    points: Seq<Point3>,
) -> bool {
    forall|b: int|
        0 <= b < points.len() ==> sibling_of(siblings_of, seed, #[trigger] points[b]) || exists|
            a: int,
        |
            0 <= a < b && sibling_of(siblings_of, #[trigger] points[a], points[b])
}

/// Whether `point` finds no room among `points`: one of them is too close
/// to it.
pub open spec fn crowded_out(points: Seq<Point3>, point: Point3, radius: u32) -> bool {
    exists|a: int| 0 <= a < points.len() && too_close(#[trigger] points[a], point, radius)
}

/// Whether nothing is left to grow around `parent`: it has a family of
/// siblings none of which finds room among `points`.
pub open spec fn grown_around<F: Fn(Point3) -> Vec<Point3>>(
    siblings_of: &F,
    parent: Point3,
    points: Seq<Point3>,
    radius: u32,
) -> bool {
    exists|family: Vec<Point3>| #[trigger]
        siblings_of.ensures((parent,), family) && forall|k: int|
            0 <= k < family@.len() ==> crowded_out(points, #[trigger] family@[k], radius)
}

/// Whether the front has come to rest: nothing is left to grow around the
/// seed or around any of the points.
pub open spec fn covers<F: Fn(Point3) -> Vec<Point3>>(
    siblings_of: &F,
    seed: Point3,
    points: Seq<Point3>,
    radius: u32,
) -> bool {
    &&& grown_around(siblings_of, seed, points, radius)
    &&& forall|a: int|
        0 <= a < points.len() ==> grown_around(siblings_of, #[trigger] points[a], points, radius)
}

/// A point that finds no room keeps finding none when more points are
/// accepted.
proof fn lemma_crowded_out_stays(points: Seq<Point3>, more: Seq<Point3>, point: Point3, radius: u32)
    requires
        crowded_out(points, point, radius),
        points.len() <= more.len(),
        forall|a: int| 0 <= a < points.len() ==> more[a] == points[a],
    ensures
        crowded_out(more, point, radius),
{
    let a = choose|a: int| 0 <= a < points.len() && too_close(#[trigger] points[a], point, radius);
    assert(too_close(more[a], point, radius));
}

/// Where nothing is left to grow around a point, nothing is when more points
/// are accepted.
proof fn lemma_grown_around_stays<F: Fn(Point3) -> Vec<Point3>>(
    siblings_of: &F,
    parent: Point3,
    points: Seq<Point3>,
    more: Seq<Point3>,
    radius: u32,
)
    requires
        grown_around(siblings_of, parent, points, radius),
        points.len() <= more.len(),
        forall|a: int| 0 <= a < points.len() ==> more[a] == points[a],
    ensures
        grown_around(siblings_of, parent, more, radius),
{
    let family = choose|family: Vec<Point3>| #[trigger]
        siblings_of.ensures((parent,), family) && forall|k: int|
            0 <= k < family@.len() ==> crowded_out(points, #[trigger] family@[k], radius);
    assert forall|k: int| 0 <= k < family@.len() implies crowded_out(
        more,
        #[trigger] family@[k],
        radius,
    ) by {
        lemma_crowded_out_stays(points, more, family@[k], radius);
    }
}

/// Whether `point` is done with or waits its turn: nothing is left to grow
/// around it, or it is among the untreated, or it is the point in hand.
pub open spec fn accounted_for<F: Fn(Point3) -> Vec<Point3>>(
    siblings_of: &F,
    point: Point3,
    points: Seq<Point3>,
    radius: u32,
    untreated: Seq<Point3>,
    in_hand: Option<Point3>,
) -> bool {
    grown_around(siblings_of, point, points, radius) || untreated.contains(point) || in_hand
        == Some(point)
}

/// Whether two points are too close for both to be accepted.
pub fn is_too_close(a: &Point3, b: &Point3, repulsion_radius: u32) -> (close: bool)
    ensures
        close == too_close(*a, *b, repulsion_radius),
{
    let d = a.distance_squared(b);
    proof {
        lemma_dist_sq_bound(*a, *b);
    }
    assert(repulsion_radius * repulsion_radius <= 0xFFFF_FFFF * 0xFFFF_FFFF) by (nonlinear_arith)
        requires
            0 <= repulsion_radius <= 0xFFFF_FFFF,
    ;
    let r = (repulsion_radius as u128) * (repulsion_radius as u128);
    100 * d <= 361 * r
}

/// The squared distance of two lattice points is less than three times the
/// square of the lattice's width.
proof fn lemma_dist_sq_bound(a: Point3, b: Point3)
    ensures
        0 <= dist_sq(a, b) <= 3 * (0xFFFF_FFFF * 0xFFFF_FFFF),
{
    lemma_square_bound(a.x - b.x);
    lemma_square_bound(a.y - b.y);
    lemma_square_bound(a.z - b.z);
}

/// The square of a difference of coordinates.
proof fn lemma_square_bound(d: int)
    requires
        -0xFFFF_FFFF <= d <= 0xFFFF_FFFF,
    ensures
        0 <= square(d) <= 0xFFFF_FFFF * 0xFFFF_FFFF,
{
    assert(0 <= d * d <= 0xFFFF_FFFF * 0xFFFF_FFFF) by (nonlinear_arith)
        requires
            -0xFFFF_FFFF <= d <= 0xFFFF_FFFF,
    ;
}

/// Points that are too close lie within any whole radius of at least
/// nineteen tenths of the repulsion radius.
proof fn lemma_too_close_is_within(a: Point3, b: Point3, repulsion_radius: u32, reach: u32)
    requires
        too_close(a, b, repulsion_radius),
        10 * reach >= 19 * repulsion_radius,
    ensures
        within(a, b, reach),
{
    let r = repulsion_radius as int;
    let c = reach as int;
    assert(361 * (r * r) <= 100 * (c * c)) by (nonlinear_arith)
        requires
            0 <= 19 * r <= 10 * c,
    ;
}

/// Whether `point` finds no room among the samples. The tree is asked for
/// the samples within the next whole radius, and these are tested exactly;
/// where that radius is more than the tree can be asked for, every sample
/// is tested.
fn finds_no_room(samples: &KdContainer<Point3>, point: Point3, repulsion_radius: u32) -> (crowded:
    bool)
    requires
        samples.wf(),
    ensures
        crowded == crowded_out(samples.items@, point, repulsion_radius),
{
    let reach: u64 = (19 * (repulsion_radius as u64) + 9) / 10;
    if reach <= u32::MAX as u64 {
        let mut found: Vec<usize> = Vec::new();
        _get_indices_within(
            samples.items.as_slice(),
            &samples.tree,
            point,
            reach as u32,
            &mut found,
        );
        let ghost in_reach = near(samples.items@, point, reach as u32);
        let ghost held = samples.tree.contents();
        assert(found@ =~= held.filter(in_reach));
        proof {
            lemma_filter_members(held, in_reach);
        }
        let mut k: usize = 0;
        while k < found.len()
            invariant
                k <= found@.len(),
                forall|m: int| 0 <= m < found@.len() ==> (#[trigger] found@[m]) < samples.items@.len(),
                forall|m: int|
                    0 <= m < k ==> !too_close(
                        samples.items@[(#[trigger] found@[m]) as int],
                        point,
                        repulsion_radius,
                    ),
            decreases found@.len() - k,
        {
            let i: usize = found[k];
            assert(found@[k as int] < samples.items@.len());
            if is_too_close(&samples.items[i], &point, repulsion_radius) {
                return true;
            }
            k += 1;
        }
        proof {
            if crowded_out(samples.items@, point, repulsion_radius) {
                let a = choose|a: int|
                    0 <= a < samples.items@.len() && too_close(
                        #[trigger] samples.items@[a],
                        point,
                        repulsion_radius,
                    );
                assert(samples.items@.len() == samples.items.len());
                let slot = a as usize;
                lemma_too_close_is_within(samples.items@[a], point, repulsion_radius, reach as u32);
                assert(held.contains(slot));
                assert(in_reach(slot));
                assert(found@.contains(slot));
                let m = choose|m: int| 0 <= m < found@.len() && found@[m] == slot;
                assert(!too_close(samples.items@[found@[m] as int], point, repulsion_radius));
            }
        }
        false
    } else {
        let mut k: usize = 0;
        while k < samples.items.len()
            invariant
                k <= samples.items@.len(),
                forall|m: int|
                    0 <= m < k ==> !too_close(
                        #[trigger] samples.items@[m],
                        point,
                        repulsion_radius,
                    ),
            decreases samples.items@.len() - k,
        {
            if is_too_close(&samples.items[k], &point, repulsion_radius) {
                return true;
            }
            k += 1;
        }
        false
    }
}

/// Samples the surface from `seed` outwards and returns the accepted points
/// in the order of their acceptance, at most `limit` of them. `siblings_of`
/// gives the points around a point of the surface. No accepted point lies
/// within the rejection radius of another, each is a sibling of the seed or
/// of a point accepted before it, and unless the limit was reached nothing is
/// left to grow.
pub fn sample<F>(seed: Point3, repulsion_radius: u32, limit: usize, siblings_of: &F) -> (samples:
    Vec<Point3>) where F: Fn(Point3) -> Vec<Point3>
    requires
        forall|p: Point3| siblings_of.requires((p,)),
    ensures
        samples@.len() <= limit,
        separated(samples@, repulsion_radius),
        descends_from(siblings_of, seed, samples@),
        samples@.len() < limit ==> covers(siblings_of, seed, samples@, repulsion_radius),
{
    let reject = repulsion_radius;
    let mut samples: KdContainer<Point3> = KdContainer::new();
    let mut untreated: Vec<Point3> = Vec::new();
    if limit == 0 {
        return samples.items;
    }
    untreated.push(seed);
    assert(untreated@[0] == seed);
    while untreated.len() > 0
        invariant
            samples.wf(),
            samples.items@.len() <= limit,
            reject == repulsion_radius,
            separated(samples.items@, reject),
            descends_from(siblings_of, seed, samples.items@),
            forall|u: int|
                0 <= u < untreated@.len() ==> #[trigger] untreated@[u] == seed
                    || samples.items@.contains(untreated@[u]),
            samples.items@.len() < limit ==> accounted_for(
                siblings_of,
                seed,
                samples.items@,
                reject,
                untreated@,
                None,
            ),
            samples.items@.len() < limit ==> forall|a: int|
                0 <= a < samples.items@.len() ==> accounted_for(
                    siblings_of,
                    #[trigger] samples.items@[a],
                    samples.items@,
                    reject,
                    untreated@,
                    None,
                ),
            forall|p: Point3| siblings_of.requires((p,)),
        decreases 2 * (limit - samples.items@.len()) + untreated@.len(),
    {
        let ghost waiting = untreated@;
        let next_seed = untreated.pop().unwrap();
        assert(next_seed == waiting[waiting.len() - 1]);
        assert forall|u: int| 0 <= u < untreated@.len() implies #[trigger] untreated@[u] == seed
            || samples.items@.contains(untreated@[u]) by {
            assert(untreated@[u] == waiting[u]);
        }
        proof {
            // what waited still waits, but for the point in hand
            assert forall|p: Point3| waiting.contains(p) implies untreated@.contains(p)
                || next_seed == p by {
                let u = choose|u: int| 0 <= u < waiting.len() && waiting[u] == p;
                if u < untreated@.len() {
                    assert(untreated@[u] == p);
                }
            }
        }
        let family = siblings_of(next_seed);
        let ghost budget = 2 * (limit - samples.items@.len()) + untreated@.len();
        let mut k: usize = 0;
        while k < family.len()
            invariant
                k <= family@.len(),
                samples.wf(),
                samples.items@.len() <= limit,
                reject == repulsion_radius,
                separated(samples.items@, reject),
                descends_from(siblings_of, seed, samples.items@),
                siblings_of.ensures((next_seed,), family),
                next_seed == seed || samples.items@.contains(next_seed),
                forall|u: int|
                    0 <= u < untreated@.len() ==> #[trigger] untreated@[u] == seed
                        || samples.items@.contains(untreated@[u]),
                samples.items@.len() < limit ==> accounted_for(
                    siblings_of,
                    seed,
                    samples.items@,
                    reject,
                    untreated@,
                    Some(next_seed),
                ),
                samples.items@.len() < limit ==> forall|a: int|
                    0 <= a < samples.items@.len() ==> accounted_for(
                        siblings_of,
                        #[trigger] samples.items@[a],
                        samples.items@,
                        reject,
                        untreated@,
                        Some(next_seed),
                    ),
                samples.items@.len() < limit ==> forall|m: int|
                    0 <= m < k ==> crowded_out(samples.items@, #[trigger] family@[m], reject),
                2 * (limit - samples.items@.len()) + untreated@.len() <= budget,
            decreases family@.len() - k,
        {
            let point = family[k];
            if samples.items.len() < limit && !finds_no_room(&samples, point, reject) {
                let ghost accepted = samples.items@;
                let ghost queued = untreated@;
                samples.push(point);
                untreated.push(point);
                proof {
                    let grown = samples.items@;
                    assert(grown.len() == accepted.len() + 1);
                    assert(grown[accepted.len() as int] == point);
                    assert forall|a: int| 0 <= a < accepted.len() implies #[trigger] grown[a]
                        == accepted[a] by {}
                    assert forall|a: int, b: int| 0 <= a < b < grown.len() implies !too_close(
                        grown[a],
                        grown[b],
                        reject,
                    ) by {
                        if b == accepted.len() {
                            assert(grown[a] == accepted[a]);
                        } else {
                            assert(grown[a] == accepted[a]);
                            assert(grown[b] == accepted[b]);
                        }
                    }
                    assert(family@[k as int] == point);
                    assert(family@.contains(point));
                    assert(sibling_of(siblings_of, next_seed, point));
                    assert forall|b: int| 0 <= b < grown.len() implies sibling_of(
                        siblings_of,
                        seed,
                        #[trigger] grown[b],
                    ) || exists|a: int|
                        0 <= a < b && sibling_of(siblings_of, #[trigger] grown[a], grown[b]) by {
                        if b < accepted.len() {
                            assert(grown[b] == accepted[b]);
                            if !sibling_of(siblings_of, seed, accepted[b]) {
                                let a = choose|a: int|
                                    0 <= a < b && sibling_of(
                                        siblings_of,
                                        #[trigger] accepted[a],
                                        accepted[b],
                                    );
                                assert(grown[a] == accepted[a]);
                            }
                        } else {
                            if next_seed != seed {
                                let a = choose|a: int|
                                    0 <= a < accepted.len() && accepted[a] == next_seed;
                                assert(grown[a] == next_seed);
                            }
                        }
                    }
                    assert forall|u: int| 0 <= u < untreated@.len() implies #[trigger] untreated@[u]
                        == seed || grown.contains(untreated@[u]) by {
                        if u < queued.len() {
                            assert(untreated@[u] == queued[u]);
                            if queued[u] != seed {
                                let a = choose|a: int|
                                    0 <= a < accepted.len() && accepted[a] == queued[u];
                                assert(grown[a] == queued[u]);
                            }
                        } else {
                            assert(untreated@[u] == point);
                        }
                    }
                    if next_seed != seed {
                        let a = choose|a: int| 0 <= a < accepted.len() && accepted[a] == next_seed;
                        assert(grown[a] == next_seed);
                    }
                    // what waited still waits, and so does the new point
                    assert forall|p: Point3| queued.contains(p) implies untreated@.contains(p) by {
                        let u = choose|u: int| 0 <= u < queued.len() && queued[u] == p;
                        assert(untreated@[u] == p);
                    }
                    assert(untreated@[queued.len() as int] == point);
                    if grown.len() < limit {
                        if grown_around(siblings_of, seed, accepted, reject) {
                            lemma_grown_around_stays(siblings_of, seed, accepted, grown, reject);
                        }
                        assert forall|a: int| 0 <= a < grown.len() implies accounted_for(
                            siblings_of,
                            #[trigger] grown[a],
                            grown,
                            reject,
                            untreated@,
                            Some(next_seed),
                        ) by {
                            if a < accepted.len() {
                                assert(grown[a] == accepted[a]);
                                assert(accounted_for(
                                    siblings_of,
                                    accepted[a],
                                    accepted,
                                    reject,
                                    queued,
                                    Some(next_seed),
                                ));
                                if grown_around(siblings_of, accepted[a], accepted, reject) {
                                    lemma_grown_around_stays(
                                        siblings_of,
                                        accepted[a],
                                        accepted,
                                        grown,
                                        reject,
                                    );
                                }
                            }
                        }
                        assert forall|m: int| 0 <= m < k + 1 implies crowded_out(
                            grown,
                            #[trigger] family@[m],
                            reject,
                        ) by {
                            if m < k {
                                lemma_crowded_out_stays(accepted, grown, family@[m], reject);
                            } else {
                                crate::geometry::lemma_square_nonnegative(reject as int);
                                assert(dist_sq(point, point) == 0);
                                assert(too_close(grown[accepted.len() as int], point, reject));
                            }
                        }
                    }
                }
            } else {
                proof {
                    if samples.items@.len() < limit {
                        // the point finds no room
                        assert(crowded_out(samples.items@, family@[k as int], reject));
                    }
                }
            }
            k += 1;
        }
        proof {
            if samples.items@.len() < limit {
                assert(grown_around(siblings_of, next_seed, samples.items@, reject));
            }
        }
    }
    proof {
        if samples.items@.len() < limit {
            assert(untreated@.len() == 0);
            assert(grown_around(siblings_of, seed, samples.items@, reject));
            assert forall|a: int| 0 <= a < samples.items@.len() implies grown_around(
                siblings_of,
                #[trigger] samples.items@[a],
                samples.items@,
                reject,
            ) by {
                assert(accounted_for(
                    siblings_of,
                    samples.items@[a],
                    samples.items@,
                    reject,
                    untreated@,
                    None,
                ));
            }
        }
    }
    samples.items
}

} // verus!
