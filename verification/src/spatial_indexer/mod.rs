//! Spatial indexing of items by position. An indexer owns no item, only the
//! indices of items in an arena that its caller keeps.

use vstd::prelude::*;
use crate::geometry::{within, Point3};
use crate::slots::all_below;

pub mod kd_indexer;

verus! {

/// Something that sits at a point of the lattice.
pub trait Positioned {
    /// Where the item is.
    spec fn location(&self) -> Point3;

    /// Where the item is.
    fn position(&self) -> (p: Point3)
        ensures
            p == self.location(),
    ;
}

impl Positioned for Point3 {
    open spec fn location(&self) -> Point3 {
        *self
    }

    fn position(&self) -> (p: Point3) {
        *self
    }
}

/// The predicate "the item at this index lies within `radius` of `origin`".
pub open spec fn near<P: Positioned>(items: Seq<P>, origin: Point3, radius: u32) -> spec_fn(
    usize,
) -> bool {
    |i: usize| i < items.len() && within(items[i as int].location(), origin, radius)
}

/// An index over the positions of items in an arena, for queries by distance.
/// It holds indices only; every call is handed the arena.
pub trait SpatialIndexer<P: Positioned> {
    /// The index agrees with the arena: it names only items of the arena, each
    /// where the item's position puts it.
    spec fn fits(&self, items: Seq<P>) -> bool;

    /// The indices that the index holds, in the order in which a query visits
    /// them.
    spec fn indices(&self) -> Seq<usize>;

    /// Whether `index` can be taken out of the index.
    spec fn can_remove(&self, items: Seq<P>, index: usize) -> bool;

    /// An index that fits an arena names only items of that arena.
    proof fn lemma_indices_in_bounds(&self, items: Seq<P>)
        requires
            self.fits(items),
        ensures
            all_below(self.indices(), items.len() as int),
    ;

    /// An index keeps fitting when the arena changes only where the index
    /// names no item: every item that it holds has kept its position.
    proof fn lemma_fits_while_held_items_stay(&self, a: Seq<P>, b: Seq<P>)
        requires
            self.fits(a),
            a.len() <= b.len(),
            forall|k: int|
                0 <= k < self.indices().len() ==> b[(#[trigger] self.indices()[k]) as int].location()
                    == a[self.indices()[k] as int].location(),
        ensures
            self.fits(b),
    ;

    /// Rebuilds the index over exactly the given indices.
    fn reindex(&mut self, items: &[P], indices: Vec<usize>)
        requires
            all_below(indices@, items@.len() as int),
        ensures
            final(self).fits(items@),
            final(self).indices().to_multiset() =~= indices@.to_multiset(),
    ;

    /// Indexes `items[index]`, so that later queries find it.
    fn insert_item_index(&mut self, items: &[P], index: usize)
        requires
            old(self).fits(items@),
            index < items@.len(),
        ensures
            final(self).fits(items@),
            final(self).indices().to_multiset() =~= old(self).indices().to_multiset().insert(
                index,
            ),
    ;

    /// Takes `items[index]` out of the index, so that queries find it no more.
    fn remove_item_index(&mut self, items: &[P], index: usize)
        requires
            old(self).fits(items@),
            index < items@.len(),
            old(self).can_remove(items@, index),
        ensures
            final(self).fits(items@),
            final(self).indices().to_multiset() =~= old(self).indices().to_multiset().remove(
                index,
            ),
    ;

    /// Whether `items[index]` can be taken out of the index.
    fn can_remove_item_index(&self, items: &[P], index: usize) -> (can: bool)
        requires
            index < items@.len(),
        ensures
            can == self.can_remove(items@, index),
    ;

    /// The indices of all indexed items within `radius` of `origin`.
    fn get_indices_within(&self, items: &[P], origin: Point3, radius: u32) -> (found: Vec<usize>)
        requires
            self.fits(items@),
        ensures
            found@ == self.indices().filter(near(items@, origin, radius)),
    ;

    /// Whether any indexed item lies within `radius` of `origin`.
    fn any_indices_within(&self, items: &[P], origin: Point3, radius: u32) -> (found: bool)
        requires
            self.fits(items@),
        ensures
            found == (self.indices().filter(near(items@, origin, radius)).len() > 0),
    ;
}

} // verus!
