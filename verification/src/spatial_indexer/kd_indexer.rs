//! A kd-tree over the indices of positioned items.
//!
//! Inner nodes split space by a plane orthogonal to one axis; the axis cycles
//! X, Y, Z with depth and the plane sits at the mean coordinate of the node's
//! items, rounded down. Leaves hold indices into the caller's arena.

use vstd::prelude::*;
use vstd::multiset::Multiset;
use vstd::arithmetic::div_mod::lemma_hoist_over_denominator;
use vstd::arithmetic::div_mod::lemma_div_is_ordered;
use vstd::arithmetic::div_mod::lemma_div_multiples_vanish;
use crate::geometry::{lemma_within_bounds_each_axis, within, Point3};
use crate::sequences::{
    lemma_filter_in_bounds, lemma_filter_keeps_all, lemma_filter_none, lemma_filter_nonempty,
    lemma_same_members,
};
use crate::slots::all_below;
use crate::spatial_indexer::{near, Positioned, SpatialIndexer};

verus! {

/// A leaf that reaches this many indices is split where its items allow it.
pub const KD_LEAF_SIZE: usize = 100;

/// The axis that a node splits along.
#[derive(Debug, Copy, Clone, PartialEq, Eq, Structural)]
pub enum SplitAxis {
    X,
    Y,
    Z,
}

impl SplitAxis {
    /// The axis that follows this one: X, Y, Z and X again.
    pub open spec fn successor(self) -> SplitAxis {
        match self {
            SplitAxis::X => SplitAxis::Y,
            SplitAxis::Y => SplitAxis::Z,
            SplitAxis::Z => SplitAxis::X,
        }
    }

    /// The coordinate of `v` along this axis.
    pub open spec fn coordinate(self, v: Point3) -> int {
        match self {
            SplitAxis::X => v.x as int,
            SplitAxis::Y => v.y as int,
            SplitAxis::Z => v.z as int,
        }
    }

    /// The axis that follows this one.
    pub fn next(&self) -> (axis: SplitAxis)
        ensures
            axis == self.successor(),
    {
        match self {
            SplitAxis::X => SplitAxis::Y,
            SplitAxis::Y => SplitAxis::Z,
            SplitAxis::Z => SplitAxis::X,
        }
    }

    /// The coordinate of `v` along this axis.
    pub fn component(&self, v: &Point3) -> (c: i32)
        ensures
            c == self.coordinate(*v),
    {
        match self {
            SplitAxis::X => v.x,
            SplitAxis::Y => v.y,
            SplitAxis::Z => v.z,
        }
    }
}

/// The coordinate along `axis` of the item at index `i`.
pub open spec fn coordinate_at<T: Positioned>(arena: Seq<T>, axis: SplitAxis, i: usize) -> int {
    axis.coordinate(arena[i as int].location())
}

/// The sum of the coordinates along `axis` of the items that `indices` names.
pub open spec fn coordinate_sum<T: Positioned>(
    arena: Seq<T>,
    axis: SplitAxis,
    indices: Seq<usize>,
) -> int
    decreases indices.len(),
{
    if indices.len() == 0 {
        0
    } else {
        coordinate_sum(arena, axis, indices.drop_last()) + coordinate_at(
            arena,
            axis,
            indices.last(),
        )
    }
}

/// The mean coordinate along `axis` of the named items, rounded down.
pub open spec fn mean_coordinate<T: Positioned>(
    arena: Seq<T>,
    axis: SplitAxis,
    indices: Seq<usize>,
) -> int {
    coordinate_sum(arena, axis, indices) / (indices.len() as int)
}

/// The predicate "the item at this index lies on the low side of the plane".
pub open spec fn at_most<T: Positioned>(arena: Seq<T>, axis: SplitAxis, midpoint: int) -> spec_fn(
    usize,
) -> bool {
    |i: usize| coordinate_at(arena, axis, i) <= midpoint
}

/// The predicate "the item at this index lies on the high side of the plane".
pub open spec fn above<T: Positioned>(arena: Seq<T>, axis: SplitAxis, midpoint: int) -> spec_fn(
    usize,
) -> bool {
    |i: usize| coordinate_at(arena, axis, i) > midpoint
}

/// Splitting by a plane loses and invents nothing: the two sides together
/// hold each index as often as the whole did.
pub proof fn lemma_split_is_partition<T: Positioned>(
    arena: Seq<T>,
    axis: SplitAxis,
    midpoint: int,
    indices: Seq<usize>,
)
    ensures
        indices.filter(at_most(arena, axis, midpoint)).to_multiset().add(
            indices.filter(above(arena, axis, midpoint)).to_multiset(),
        ) =~= indices.to_multiset(),
        indices.filter(at_most(arena, axis, midpoint)).len() + indices.filter(
            above(arena, axis, midpoint),
        ).len() == indices.len(),
    decreases indices.len(),
{
    broadcast use vstd::seq_lib::to_multiset_build;
    broadcast use vstd::multiset::group_multiset_axioms;

    let lo = at_most(arena, axis, midpoint);
    let hi = above(arena, axis, midpoint);
    if indices.len() == 0 {
        assert(indices.filter(lo) =~= Seq::<usize>::empty()) by {
            reveal(Seq::filter);
        }
        assert(indices.filter(hi) =~= Seq::<usize>::empty()) by {
            reveal(Seq::filter);
        }
        assert(indices =~= Seq::<usize>::empty());
        assert(Seq::<usize>::empty().to_multiset() =~= Multiset::<usize>::empty()) by {
            Seq::<usize>::empty().to_multiset_ensures();
        }
    } else {
        let rest = indices.drop_last();
        let last = indices.last();
        lemma_split_is_partition(arena, axis, midpoint, rest);
        assert(indices =~= rest.push(last));
        rest.lemma_filter_push(last, lo);
        rest.lemma_filter_push(last, hi);
        if lo(last) {
            assert(!hi(last));
        } else {
            assert(hi(last));
        }
    }
}

/// The sum of coordinates grows by the coordinate of a pushed index.
proof fn lemma_coordinate_sum_push<T: Positioned>(
    arena: Seq<T>,
    axis: SplitAxis,
    indices: Seq<usize>,
    i: usize,
)
    ensures
        coordinate_sum(arena, axis, indices.push(i)) == coordinate_sum(arena, axis, indices)
            + coordinate_at(arena, axis, i),
{
    assert(indices.push(i).drop_last() =~= indices);
}

/// Divides the named items by the plane through their mean coordinate along
/// `axis`: the mean, the indices at or below it, and the indices above it,
/// each side in the order in which `items` held them.
pub fn _split<T: Positioned>(item_arena: &[T], items: Vec<usize>, axis: SplitAxis) -> (parts: (
    i32,
    Vec<usize>,
    Vec<usize>,
))
    requires
        items@.len() > 0,
        all_below(items@, item_arena@.len() as int),
    ensures
        parts.0 == mean_coordinate(item_arena@, axis, items@),
        parts.1@ == items@.filter(at_most(item_arena@, axis, parts.0 as int)),
        parts.2@ == items@.filter(above(item_arena@, axis, parts.0 as int)),
{
    let item_count: usize = items.len();
    let mut total: u128 = 0;
    let mut k: usize = 0;
    while k < item_count
        invariant
            item_count == items@.len(),
            k <= item_count,
            all_below(items@, item_arena@.len() as int),
            total == coordinate_sum(item_arena@, axis, items@.take(k as int)) + k * 0x8000_0000,
            total <= k * 0xFFFF_FFFF,
        decreases item_count - k,
    {
        let idx: usize = items[k];
        let c: i32 = axis.component(&item_arena[idx].position());
        proof {
            items@.lemma_take_succ_push(k as int);
            lemma_coordinate_sum_push(item_arena@, axis, items@.take(k as int), idx);
            assert(k * 0xFFFF_FFFF <= 0xFFFF_FFFF_FFFF_FFFF * 0xFFFF_FFFF) by (nonlinear_arith)
                requires
                    0 <= k <= 0xFFFF_FFFF_FFFF_FFFF,
            ;
        }
        total = total + ((c as i64 + 0x8000_0000) as u128);
        k += 1;
    }
    proof {
        items@.lemma_take_len();
    }
    let shifted_mean: u128 = total / (item_count as u128);
    proof {
        let sum = coordinate_sum(item_arena@, axis, items@);
        let n = item_count as int;
        lemma_hoist_over_denominator(sum, 0x8000_0000, n as nat);
        assert(shifted_mean == sum / n + 0x8000_0000);
        lemma_div_is_ordered(total as int, n * 0xFFFF_FFFF, n);
        lemma_div_multiples_vanish(0xFFFF_FFFF, n);
        assert(n * 0xFFFF_FFFF == 0xFFFF_FFFF * n) by (nonlinear_arith);
        assert(shifted_mean <= 0xFFFF_FFFF);
    }
    let midpoint: i32 = (shifted_mean as i64 - 0x8000_0000) as i32;

    let mut left: Vec<usize> = Vec::new();
    let mut right: Vec<usize> = Vec::new();
    let ghost lo = at_most(item_arena@, axis, midpoint as int);
    let ghost hi = above(item_arena@, axis, midpoint as int);
    proof {
        assert(items@.take(0).filter(lo) =~= Seq::<usize>::empty()) by {
            reveal(Seq::filter);
        }
        assert(items@.take(0).filter(hi) =~= Seq::<usize>::empty()) by {
            reveal(Seq::filter);
        }
    }
    let mut j: usize = 0;
    while j < item_count
        invariant
            item_count == items@.len(),
            j <= item_count,
            all_below(items@, item_arena@.len() as int),
            lo == at_most(item_arena@, axis, midpoint as int),
            hi == above(item_arena@, axis, midpoint as int),
            left@ == items@.take(j as int).filter(lo),
            right@ == items@.take(j as int).filter(hi),
        decreases item_count - j,
    {
        let idx: usize = items[j];
        proof {
            items@.lemma_take_succ_push(j as int);
            items@.take(j as int).lemma_filter_push(idx, lo);
            items@.take(j as int).lemma_filter_push(idx, hi);
        }
        if axis.component(&item_arena[idx].position()) > midpoint {
            right.push(idx)
        } else {
            left.push(idx)
        }
        j += 1;
    }
    proof {
        items@.lemma_take_len();
    }
    (midpoint, left, right)
}

/// A kd-tree: a leaf of arena indices, or a plane with a subtree on each side.
#[derive(Debug)]
pub enum KdTree {
    Leaf(Vec<usize>),
    Node(KdNode),
}

/// An inner node: items whose coordinate along `axis` is at most `midpoint`
/// are on the left, the others on the right.
#[derive(Debug)]
pub struct KdNode {
    pub axis: SplitAxis,
    pub midpoint: i32,
    pub right: Box<KdTree>,
    pub left: Box<KdTree>,
}

/// Whether all of the named items sit at one and the same point.
pub open spec fn coincident<T: Positioned>(arena: Seq<T>, indices: Seq<usize>) -> bool {
    forall|a: int, b: int|
        0 <= a < indices.len() && 0 <= b < indices.len() ==> arena[(#[trigger] indices[a]) as int].location()
            == arena[(#[trigger] indices[b]) as int].location()
}

/// Whether all of the named items have one and the same coordinate along `axis`.
pub open spec fn level_along<T: Positioned>(
    arena: Seq<T>,
    axis: SplitAxis,
    indices: Seq<usize>,
) -> bool {
    forall|a: int, b: int|
        0 <= a < indices.len() && 0 <= b < indices.len() ==> coordinate_at(
            arena,
            axis,
            #[trigger] indices[a],
        ) == coordinate_at(arena, axis, #[trigger] indices[b])
}

impl KdTree {
    /// The indices that the tree holds, leaf by leaf from left to right.
    pub open spec fn contents(self) -> Seq<usize>
        decreases self,
    {
        match self {
            KdTree::Leaf(l) => l@,
            KdTree::Node(n) => n.left.contents() + n.right.contents(),
        }
    }

    /// The tree fits the arena: every index names an item, and every item sits
    /// on the side of each plane above it that the plane assigns to it.
    pub open spec fn wf<T: Positioned>(self, arena: Seq<T>) -> bool
        decreases self,
    {
        match self {
            KdTree::Leaf(l) => all_below(l@, arena.len() as int),
            KdTree::Node(n) => {
                &&& n.left.wf(arena)
                &&& n.right.wf(arena)
                &&& forall|k: int|
                    0 <= k < n.left.contents().len() ==> coordinate_at(
                        arena,
                        n.axis,
                        #[trigger] n.left.contents()[k],
                    ) <= n.midpoint
                &&& forall|k: int|
                    0 <= k < n.right.contents().len() ==> coordinate_at(
                        arena,
                        n.axis,
                        #[trigger] n.right.contents()[k],
                    ) > n.midpoint
            },
        }
    }

    /// No leaf of the tree is empty.
    pub open spec fn leaves_nonempty(self) -> bool
        decreases self,
    {
        match self {
            KdTree::Leaf(l) => l@.len() > 0,
            KdTree::Node(n) => n.left.leaves_nonempty() && n.right.leaves_nonempty(),
        }
    }

    /// Every leaf holds fewer than `KD_LEAF_SIZE` indices, unless its items
    /// all sit at one point, where no plane can part them.
    pub open spec fn leaves_small<T: Positioned>(self, arena: Seq<T>) -> bool
        decreases self,
    {
        match self {
            KdTree::Leaf(l) => l@.len() < KD_LEAF_SIZE || coincident(arena, l@),
            KdTree::Node(n) => n.left.leaves_small(arena) && n.right.leaves_small(arena),
        }
    }

    /// Every plane sits at the mean coordinate, rounded down, of the items
    /// that the subtree below it holds.
    pub open spec fn split_at_means<T: Positioned>(self, arena: Seq<T>) -> bool
        decreases self,
    {
        match self {
            KdTree::Leaf(l) => true,
            KdTree::Node(n) => {
                &&& n.midpoint == mean_coordinate(arena, n.axis, self.contents())
                &&& n.left.split_at_means(arena)
                &&& n.right.split_at_means(arena)
            },
        }
    }

    /// The axes take turns with depth: a subtree that is due to split along
    /// `axis` does so, unless its items all have the same coordinate along
    /// that axis, in which case the next axis is due, while `attempts` axes
    /// are left to try; and the subtrees below a plane are due to split along
    /// the axis after the plane's.
    pub open spec fn axes_take_turns<T: Positioned>(
        self,
        arena: Seq<T>,
        axis: SplitAxis,
        attempts: int,
    ) -> bool
        decreases self,
    {
        match self {
            KdTree::Leaf(l) => true,
            KdTree::Node(n) => {
                &&& {
                    ||| attempts >= 1 && n.axis == axis
                    ||| attempts >= 2 && n.axis == axis.successor() && level_along(
                        arena,
                        axis,
                        self.contents(),
                    )
                    ||| attempts >= 3 && n.axis == axis.successor().successor() && level_along(
                        arena,
                        axis,
                        self.contents(),
                    ) && level_along(arena, axis.successor(), self.contents())
                }
                &&& n.left.axes_take_turns(arena, n.axis.successor(), 3)
                &&& n.right.axes_take_turns(arena, n.axis.successor(), 3)
            },
        }
    }

    /// The tree is as a build leaves it: no leaf is empty unless the tree
    /// holds nothing, every leaf is small, every plane sits at the mean of
    /// what is below it, and the axes take turns from `axis` on.
    pub open spec fn well_built<T: Positioned>(self, arena: Seq<T>, axis: SplitAxis) -> bool {
        &&& self.contents().len() > 0 ==> self.leaves_nonempty()
        &&& self.leaves_small(arena)
        &&& self.split_at_means(arena)
        &&& self.axes_take_turns(arena, axis, 3)
        &&& self.contents().len() < KD_LEAF_SIZE ==> self is Leaf
    }

    /// The leaf that the position of the item at `index` leads to.
    pub open spec fn home_leaf<T: Positioned>(self, arena: Seq<T>, index: usize) -> Seq<usize>
        decreases self,
    {
        match self {
            KdTree::Leaf(l) => l@,
            KdTree::Node(n) => if coordinate_at(arena, n.axis, index) > n.midpoint {
                n.right.home_leaf(arena, index)
            } else {
                n.left.home_leaf(arena, index)
            },
        }
    }

    /// Whether `index` can be taken out: its leaf holds it, and holds another
    /// index besides, so that the leaf does not become empty.
    pub open spec fn removable<T: Positioned>(self, arena: Seq<T>, index: usize) -> bool {
        self.home_leaf(arena, index).contains(index) && self.home_leaf(arena, index).len() >= 2
    }

    /// In a tree that fits its arena an index is found in the leaf that its
    /// item's position leads to, and nowhere else.
    pub proof fn lemma_held_in_home_leaf<T: Positioned>(self, arena: Seq<T>, index: usize)
        requires
            self.wf(arena),
        ensures
            self.contents().contains(index) <==> self.home_leaf(arena, index).contains(index),
        decreases self,
    {
        match self {
            KdTree::Leaf(l) => {},
            KdTree::Node(n) => {
                n.left.lemma_held_in_home_leaf(arena, index);
                n.right.lemma_held_in_home_leaf(arena, index);
                let l = n.left.contents();
                let r = n.right.contents();
                if (l + r).contains(index) {
                    let k = choose|k: int| 0 <= k < (l + r).len() && (l + r)[k] == index;
                    if k < l.len() {
                        assert(l[k] == index);
                    } else {
                        assert(r[k - l.len()] == index);
                    }
                }
                if l.contains(index) {
                    let k = choose|k: int| 0 <= k < l.len() && l[k] == index;
                    assert((l + r)[k] == index);
                }
                if r.contains(index) {
                    let k = choose|k: int| 0 <= k < r.len() && r[k] == index;
                    assert((l + r)[k + l.len()] == index);
                }
            },
        }
    }

    /// A tree that fits an arena names only items of that arena.
    pub proof fn lemma_contents_in_bounds<T: Positioned>(self, arena: Seq<T>)
        requires
            self.wf(arena),
        ensures
            all_below(self.contents(), arena.len() as int),
        decreases self,
    {
        match self {
            KdTree::Leaf(l) => {},
            KdTree::Node(n) => {
                n.left.lemma_contents_in_bounds(arena);
                n.right.lemma_contents_in_bounds(arena);
            },
        }
    }
}

/// The sum of coordinates is the sum without one entry plus the coordinate
/// of that entry.
proof fn lemma_coordinate_sum_remove<T: Positioned>(
    arena: Seq<T>,
    axis: SplitAxis,
    indices: Seq<usize>,
    k: int,
)
    requires
        0 <= k < indices.len(),
    ensures
        coordinate_sum(arena, axis, indices) == coordinate_sum(arena, axis, indices.remove(k))
            + coordinate_at(arena, axis, indices[k]),
    decreases indices.len(),
{
    if k == indices.len() - 1 {
        assert(indices.remove(k) =~= indices.drop_last());
    } else {
        let rest = indices.drop_last();
        lemma_coordinate_sum_remove(arena, axis, rest, k);
        assert(indices.remove(k).drop_last() =~= rest.remove(k));
        assert(indices.remove(k).last() == indices.last());
        assert(rest[k] == indices[k]);
    }
}

/// Lists that hold each index equally often have the same sum of coordinates.
pub proof fn lemma_coordinate_sum_of_same_members<T: Positioned>(
    arena: Seq<T>,
    axis: SplitAxis,
    a: Seq<usize>,
    b: Seq<usize>,
)
    requires
        a.to_multiset() =~= b.to_multiset(),
    ensures
        coordinate_sum(arena, axis, a) == coordinate_sum(arena, axis, b),
    decreases a.len(),
{
    broadcast use vstd::seq_lib::to_multiset_remove;

    lemma_same_members(a, b);
    if a.len() > 0 {
        let last = a.last();
        assert(a.contains(last));
        let k = choose|k: int| 0 <= k < b.len() && b[k] == last;
        assert(a.drop_last() =~= a.remove(a.len() - 1));
        assert(a.remove(a.len() - 1).to_multiset() =~= a.to_multiset().remove(last));
        assert(b.remove(k).to_multiset() =~= b.to_multiset().remove(last));
        lemma_coordinate_sum_of_same_members(arena, axis, a.drop_last(), b.remove(k));
        lemma_coordinate_sum_remove(arena, axis, b, k);
    }
}

/// Lists that hold the same indices are level along the same axes.
pub proof fn lemma_level_of_same_members<T: Positioned>(
    arena: Seq<T>,
    axis: SplitAxis,
    a: Seq<usize>,
    b: Seq<usize>,
)
    requires
        a.to_multiset() =~= b.to_multiset(),
        level_along(arena, axis, a),
    ensures
        level_along(arena, axis, b),
{
    lemma_same_members(a, b);
    assert forall|x: int, y: int| 0 <= x < b.len() && 0 <= y < b.len() implies coordinate_at(
        arena,
        axis,
        #[trigger] b[x],
    ) == coordinate_at(arena, axis, #[trigger] b[y]) by {
        assert(b.contains(b[x]));
        assert(b.contains(b[y]));
        let x0 = choose|x0: int| 0 <= x0 < a.len() && a[x0] == b[x];
        let y0 = choose|y0: int| 0 <= y0 < a.len() && a[y0] == b[y];
        assert(coordinate_at(arena, axis, a[x0]) == coordinate_at(arena, axis, a[y0]));
    }
}

/// The indices of a tree built over `items`, leaf by leaf from left to
/// right: the items themselves where they fit one leaf or cannot be parted;
/// else, where no item lies above the mean along `axis`, what the next axis
/// makes of them; else those at or below the mean, as the next axis orders
/// them, before those above it.
pub open spec fn built_contents<T: Positioned>(
    arena: Seq<T>,
    items: Seq<usize>,
    axis: SplitAxis,
    attempts: int,
) -> Seq<usize>
    decreases items.len(), attempts,
{
    let midpoint = mean_coordinate(arena, axis, items);
    let left = items.filter(at_most(arena, axis, midpoint));
    let right = items.filter(above(arena, axis, midpoint));
    if items.len() < KD_LEAF_SIZE || attempts <= 0 {
        items
    } else if right.len() == 0 {
        built_contents(arena, items, axis.successor(), attempts - 1)
    } else if left.len() < items.len() && right.len() < items.len() {
        built_contents(arena, left, axis.successor(), 3) + built_contents(
            arena,
            right,
            axis.successor(),
            3,
        )
    } else {
        items
    }
}

/// Builds the tree over `items`, splitting first along `axis`.
pub fn _construct<T: Positioned>(item_arena: &[T], items: Vec<usize>, axis: SplitAxis) -> (tree:
    KdTree)
    requires
        all_below(items@, item_arena@.len() as int),
    ensures
        tree.wf(item_arena@),
        tree.contents().to_multiset() =~= items@.to_multiset(),
        items@.len() > 0 ==> tree.leaves_nonempty(),
        tree.leaves_small(item_arena@),
        tree.split_at_means(item_arena@),
        tree.axes_take_turns(item_arena@, axis, 3),
        items@.len() < KD_LEAF_SIZE ==> tree is Leaf,
        tree.well_built(item_arena@, axis),
        tree.contents() == built_contents(item_arena@, items@, axis, 3),
{
    let ghost given = items@;
    let tree = _construct_level(item_arena, items, axis, 3);
    proof {
        lemma_same_members(tree.contents(), given);
    }
    tree
}

/// Builds the tree over `items`, where `attempts` axes are still to be tried
/// before the items count as inseparable: along each axis tried before, all
/// of them have the same coordinate.
fn _construct_level<T: Positioned>(
    item_arena: &[T],
    items: Vec<usize>,
    axis: SplitAxis,
    attempts: u8,
) -> (tree: KdTree)
    requires
        all_below(items@, item_arena@.len() as int),
        attempts <= 3,
        attempts <= 2 ==> level_along(item_arena@, axis.successor().successor(), items@),
        attempts <= 1 ==> level_along(item_arena@, axis.successor(), items@),
        attempts == 0 ==> level_along(item_arena@, axis, items@),
    ensures
        tree.wf(item_arena@),
        tree.contents().to_multiset() =~= items@.to_multiset(),
        items@.len() > 0 ==> tree.leaves_nonempty(),
        tree.leaves_small(item_arena@),
        tree.split_at_means(item_arena@),
        tree.axes_take_turns(item_arena@, axis, attempts as int),
        items@.len() < KD_LEAF_SIZE ==> tree is Leaf,
        tree.contents() == built_contents(item_arena@, items@, axis, attempts as int),
    decreases items@.len(), attempts,
{
    if items.len() < KD_LEAF_SIZE {
        return KdTree::Leaf(items);
    }
    if attempts == 0 {
        proof {
            lemma_level_on_all_axes(item_arena@, items@);
        }
        return KdTree::Leaf(items);
    }
    let ghost whole = items@;
    let (midpoint, left, right) = _split(item_arena, items, axis);
    let ghost lo = at_most(item_arena@, axis, midpoint as int);
    let ghost hi = above(item_arena@, axis, midpoint as int);
    proof {
        lemma_split_is_partition(item_arena@, axis, midpoint as int, whole);
        lemma_filter_in_bounds(whole, lo, item_arena@.len() as int);
        lemma_filter_in_bounds(whole, hi, item_arena@.len() as int);
        lemma_mean_splits(item_arena@, axis, whole);
    }
    if right.len() == 0 {
        proof {
            assert(left@.len() == whole.len());
            whole.lemma_filter_len(lo);
            lemma_filter_keeps_all(whole, lo);
            assert(left@ =~= whole);
            // nothing lies above the mean, so all coordinates are equal
            assert(level_along(item_arena@, axis, whole));
            let next = axis.successor();
            assert(next.successor().successor() == axis);
        }
        let tree = _construct_level(item_arena, left, axis.next(), attempts - 1);
        proof {
            lemma_level_of_same_members(item_arena@, axis, whole, tree.contents());
        }
        return tree;
    }
    proof {
        assert(left@.len() > 0);
        assert(left@.len() < whole.len());
        assert(right@.len() < whole.len());
    }
    let left_node = _construct_level(item_arena, left, axis.next(), 3);
    let right_node = _construct_level(item_arena, right, axis.next(), 3);
    proof {
        lemma_same_members(left_node.contents(), left@);
        lemma_same_members(right_node.contents(), right@);
        assert forall|k: int| 0 <= k < left_node.contents().len() implies coordinate_at(
            item_arena@,
            axis,
            #[trigger] left_node.contents()[k],
        ) <= midpoint by {
            let x = left_node.contents()[k];
            assert(left_node.contents().contains(x));
            assert(left@.contains(x));
            let m = choose|m: int| 0 <= m < left@.len() && left@[m] == x;
            whole.lemma_filter_pred(lo, m);
        }
        assert forall|k: int| 0 <= k < right_node.contents().len() implies coordinate_at(
            item_arena@,
            axis,
            #[trigger] right_node.contents()[k],
        ) > midpoint by {
            let x = right_node.contents()[k];
            assert(right_node.contents().contains(x));
            assert(right@.contains(x));
            let m = choose|m: int| 0 <= m < right@.len() && right@[m] == x;
            whole.lemma_filter_pred(hi, m);
        }
        vstd::seq_lib::lemma_multiset_commutative(left_node.contents(), right_node.contents());
        lemma_coordinate_sum_of_same_members(
            item_arena@,
            axis,
            whole,
            left_node.contents() + right_node.contents(),
        );
        lemma_same_members(whole, left_node.contents() + right_node.contents());
    }
    KdTree::Node(
        KdNode { axis, midpoint, right: Box::new(right_node), left: Box::new(left_node) },
    )
}

/// The sum of coordinates that are all at most `bound` is at most `bound`
/// times their number, and symmetrically from below.
proof fn lemma_coordinate_sum_bounds<T: Positioned>(
    arena: Seq<T>,
    axis: SplitAxis,
    indices: Seq<usize>,
    low: int,
    high: int,
)
    requires
        forall|k: int|
            0 <= k < indices.len() ==> low <= coordinate_at(arena, axis, #[trigger] indices[k])
                <= high,
    ensures
        low * indices.len() <= coordinate_sum(arena, axis, indices) <= high * indices.len(),
    decreases indices.len(),
{
    if indices.len() > 0 {
        let rest = indices.drop_last();
        assert forall|k: int| 0 <= k < rest.len() implies low <= coordinate_at(
            arena,
            axis,
            #[trigger] rest[k],
        ) <= high by {
            assert(rest[k] == indices[k]);
        }
        lemma_coordinate_sum_bounds(arena, axis, rest, low, high);
        assert(low * indices.len() == low * rest.len() + low) by (nonlinear_arith)
            requires
                indices.len() == rest.len() + 1,
        ;
        assert(high * indices.len() == high * rest.len() + high) by (nonlinear_arith)
            requires
                indices.len() == rest.len() + 1,
        ;
    } else {
        assert(low * indices.len() == 0) by (nonlinear_arith)
            requires
                indices.len() == 0,
        ;
        assert(high * indices.len() == 0) by (nonlinear_arith)
            requires
                indices.len() == 0,
        ;
    }
}

/// Where no item lies above the mean, all items have the same coordinate; and
/// some item always lies at or below the mean.
proof fn lemma_mean_splits<T: Positioned>(arena: Seq<T>, axis: SplitAxis, indices: Seq<usize>)
    requires
        indices.len() > 0,
    ensures
        indices.filter(at_most(arena, axis, mean_coordinate(arena, axis, indices))).len() > 0,
        indices.filter(above(arena, axis, mean_coordinate(arena, axis, indices))).len() == 0
            ==> level_along(arena, axis, indices),
{
    let n = indices.len() as int;
    let sum = coordinate_sum(arena, axis, indices);
    let mean = mean_coordinate(arena, axis, indices);
    let lo = at_most(arena, axis, mean);
    let hi = above(arena, axis, mean);
    vstd::arithmetic::div_mod::lemma_fundamental_div_mod(sum, n);
    vstd::arithmetic::div_mod::lemma_mod_bound(sum, n);
    // n * mean <= sum < n * mean + n
    if indices.filter(lo).len() == 0 {
        // every coordinate is at least mean + 1
        assert forall|k: int| 0 <= k < indices.len() implies mean + 1 <= coordinate_at(
            arena,
            axis,
            #[trigger] indices[k],
        ) <= 0x7FFF_FFFF by {
            if lo(indices[k]) {
                indices.lemma_filter_contains(lo, k);
            }
        }
        lemma_coordinate_sum_bounds(arena, axis, indices, mean + 1, 0x7FFF_FFFF);
        assert((mean + 1) * n == n * mean + n) by (nonlinear_arith);
        assert(false);
    }
    if indices.filter(hi).len() == 0 {
        assert forall|k: int| 0 <= k < indices.len() implies -0x8000_0000 <= coordinate_at(
            arena,
            axis,
            #[trigger] indices[k],
        ) <= mean by {
            if hi(indices[k]) {
                indices.lemma_filter_contains(hi, k);
            }
        }
        // were one coordinate below the mean, the sum would fall short of n * mean
        if !level_along(arena, axis, indices) {
            let (a, b) = choose|a: int, b: int|
                0 <= a < indices.len() && 0 <= b < indices.len() && coordinate_at(
                    arena,
                    axis,
                    #[trigger] indices[a],
                ) != coordinate_at(arena, axis, #[trigger] indices[b]);
            let short = if coordinate_at(arena, axis, indices[a]) < mean {
                a
            } else {
                b
            };
            assert(coordinate_at(arena, axis, indices[short]) < mean);
            lemma_sum_with_one_short(arena, axis, indices, mean, short);
            assert(mean * n == n * mean) by (nonlinear_arith);
            assert(false);
        }
    }
}

/// If every coordinate is at most `high` and one is below it, the sum is
/// below `high` times the number of items.
proof fn lemma_sum_with_one_short<T: Positioned>(
    arena: Seq<T>,
    axis: SplitAxis,
    indices: Seq<usize>,
    high: int,
    short: int,
)
    requires
        0 <= short < indices.len(),
        coordinate_at(arena, axis, indices[short]) < high,
        forall|k: int|
            0 <= k < indices.len() ==> coordinate_at(arena, axis, #[trigger] indices[k]) <= high,
    ensures
        coordinate_sum(arena, axis, indices) < high * indices.len(),
    decreases indices.len(),
{
    let rest = indices.drop_last();
    assert forall|k: int| 0 <= k < rest.len() implies -0x8000_0000 <= coordinate_at(
        arena,
        axis,
        #[trigger] rest[k],
    ) <= high by {
        assert(rest[k] == indices[k]);
    }
    assert(high * indices.len() == high * rest.len() + high) by (nonlinear_arith)
        requires
            indices.len() == rest.len() + 1,
    ;
    if short == indices.len() - 1 {
        lemma_coordinate_sum_bounds(arena, axis, rest, -0x8000_0000, high);
    } else {
        assert(rest[short] == indices[short]);
        lemma_sum_with_one_short(arena, axis, rest, high, short);
        assert(coordinate_at(arena, axis, indices.last()) <= high);
    }
}

/// Items that agree along all three axes sit at one point.
proof fn lemma_level_on_all_axes<T: Positioned>(arena: Seq<T>, indices: Seq<usize>)
    requires
        level_along(arena, SplitAxis::X, indices),
        level_along(arena, SplitAxis::Y, indices),
        level_along(arena, SplitAxis::Z, indices),
    ensures
        coincident(arena, indices),
{
    assert forall|a: int, b: int| 0 <= a < indices.len() && 0 <= b < indices.len() implies arena[(
    #[trigger] indices[a]) as int].location() == arena[(#[trigger] indices[b]) as int].location() by {
        let p = arena[indices[a] as int].location();
        let q = arena[indices[b] as int].location();
        assert(coordinate_at(arena, SplitAxis::X, indices[a]) == coordinate_at(
            arena,
            SplitAxis::X,
            indices[b],
        ));
        assert(coordinate_at(arena, SplitAxis::Y, indices[a]) == coordinate_at(
            arena,
            SplitAxis::Y,
            indices[b],
        ));
        assert(coordinate_at(arena, SplitAxis::Z, indices[a]) == coordinate_at(
            arena,
            SplitAxis::Z,
            indices[b],
        ));
        assert(p.x == q.x && p.y == q.y && p.z == q.z);
    }
}

/// No item on the low side of a plane is within `radius` of an origin that
/// lies more than `radius` above the plane.
proof fn lemma_low_side_out_of_reach<T: Positioned>(
    arena: Seq<T>,
    axis: SplitAxis,
    midpoint: int,
    indices: Seq<usize>,
    origin: Point3,
    radius: u32,
)
    requires
        forall|k: int|
            0 <= k < indices.len() ==> coordinate_at(arena, axis, #[trigger] indices[k])
                <= midpoint,
        axis.coordinate(origin) - radius > midpoint,
    ensures
        indices.filter(near(arena, origin, radius)) =~= Seq::<usize>::empty(),
{
    let pred = near(arena, origin, radius);
    assert forall|k: int| 0 <= k < indices.len() implies !pred(#[trigger] indices[k]) by {
        let i = indices[k];
        if pred(i) {
            lemma_within_bounds_each_axis(arena[i as int].location(), origin, radius);
            assert(coordinate_at(arena, axis, i) <= midpoint);
        }
    }
    lemma_filter_none(indices, pred);
}

/// No item on the high side of a plane is within `radius` of an origin that
/// lies at least `radius` below the plane.
proof fn lemma_high_side_out_of_reach<T: Positioned>(
    arena: Seq<T>,
    axis: SplitAxis,
    midpoint: int,
    indices: Seq<usize>,
    origin: Point3,
    radius: u32,
)
    requires
        forall|k: int|
            0 <= k < indices.len() ==> coordinate_at(arena, axis, #[trigger] indices[k]) > midpoint,
        axis.coordinate(origin) + radius <= midpoint,
    ensures
        indices.filter(near(arena, origin, radius)) =~= Seq::<usize>::empty(),
{
    let pred = near(arena, origin, radius);
    assert forall|k: int| 0 <= k < indices.len() implies !pred(#[trigger] indices[k]) by {
        let i = indices[k];
        if pred(i) {
            lemma_within_bounds_each_axis(arena[i as int].location(), origin, radius);
            assert(coordinate_at(arena, axis, i) > midpoint);
        }
    }
    lemma_filter_none(indices, pred);
}

/// Whether the tree holds an item within `radius` of `origin`.
pub fn _any_indices_within<T: Positioned>(
    item_arena: &[T],
    tree: &KdTree,
    origin: Point3,
    radius: u32,
) -> (found: bool)
    requires
        tree.wf(item_arena@),
    ensures
        found == (tree.contents().filter(near(item_arena@, origin, radius)).len() > 0),
    decreases tree,
{
    let ghost pred = near(item_arena@, origin, radius);
    match tree {
        KdTree::Leaf(l) => {
            let mut k: usize = 0;
            while k < l.len()
                invariant
                    k <= l@.len(),
                    all_below(l@, item_arena@.len() as int),
                    pred == near(item_arena@, origin, radius),
                    forall|m: int| 0 <= m < k ==> !pred(#[trigger] l@[m]),
                    tree.contents() == l@,
                decreases l@.len() - k,
            {
                let point: usize = l[k];
                if item_arena[point].position().is_within(&origin, radius) {
                    proof {
                        assert(l@[k as int] < item_arena@.len());
                        assert(pred(l@[k as int]));
                        l@.lemma_filter_contains(pred, k as int);
                        let hit = choose|m: int|
                            0 <= m < l@.filter(pred).len() && l@.filter(pred)[m] == l@[k as int];
                        assert(l@.filter(pred).len() > hit);
                    }
                    return true;
                }
                k += 1;
            }
            proof {
                lemma_filter_none(l@, pred);
            }
            false
        },
        KdTree::Node(n) => {
            let component: i64 = n.axis.component(&origin) as i64;
            let reach: i64 = radius as i64;
            let mid: i64 = n.midpoint as i64;
            proof {
                n.left.contents().lemma_filter_len(pred);
                Seq::filter_distributes_over_add(n.left.contents(), n.right.contents(), pred);
                if component - reach > mid {
                    lemma_low_side_out_of_reach(
                        item_arena@,
                        n.axis,
                        n.midpoint as int,
                        n.left.contents(),
                        origin,
                        radius,
                    );
                }
                if component + reach <= mid {
                    lemma_high_side_out_of_reach(
                        item_arena@,
                        n.axis,
                        n.midpoint as int,
                        n.right.contents(),
                        origin,
                        radius,
                    );
                }
            }
            ((component - reach <= mid) && _any_indices_within(
                item_arena,
                &n.left,
                origin,
                radius,
            )) || ((component + reach > mid) && _any_indices_within(
                item_arena,
                &n.right,
                origin,
                radius,
            ))
        },
    }
}

/// Appends to `items` the indices of the tree whose items lie within `radius`
/// of `origin`, in the order in which the tree holds them.
pub fn _get_indices_within<T: Positioned>(
    item_arena: &[T],
    tree: &KdTree,
    origin: Point3,
    radius: u32,
    items: &mut Vec<usize>,
)
    requires
        tree.wf(item_arena@),
    ensures
        final(items)@ == old(items)@ + tree.contents().filter(near(item_arena@, origin, radius)),
    decreases tree,
{
    let ghost pred = near(item_arena@, origin, radius);
    let ghost before = items@;
    match tree {
        KdTree::Leaf(l) => {
            proof {
                assert(l@.take(0).filter(pred) =~= Seq::<usize>::empty()) by {
                    reveal(Seq::filter);
                }
            }
            let mut k: usize = 0;
            while k < l.len()
                invariant
                    k <= l@.len(),
                    all_below(l@, item_arena@.len() as int),
                    pred == near(item_arena@, origin, radius),
                    items@ =~= before + l@.take(k as int).filter(pred),
                decreases l@.len() - k,
            {
                let point: usize = l[k];
                proof {
                    l@.lemma_take_succ_push(k as int);
                    l@.take(k as int).lemma_filter_push(point, pred);
                }
                if item_arena[point].position().is_within(&origin, radius) {
                    items.push(point);
                }
                k += 1;
            }
            proof {
                l@.lemma_take_len();
            }
        },
        KdTree::Node(n) => {
            let component: i64 = n.axis.component(&origin) as i64;
            let reach: i64 = radius as i64;
            let mid: i64 = n.midpoint as i64;
            proof {
                Seq::filter_distributes_over_add(n.left.contents(), n.right.contents(), pred);
            }
            if component - reach <= mid {
                _get_indices_within(item_arena, &n.left, origin, radius, items)
            } else {
                proof {
                    lemma_low_side_out_of_reach(
                        item_arena@,
                        n.axis,
                        n.midpoint as int,
                        n.left.contents(),
                        origin,
                        radius,
                    );
                }
            }
            if component + reach > mid {
                _get_indices_within(item_arena, &n.right, origin, radius, items)
            } else {
                proof {
                    lemma_high_side_out_of_reach(
                        item_arena@,
                        n.axis,
                        n.midpoint as int,
                        n.right.contents(),
                        origin,
                        radius,
                    );
                }
            }
            proof {
                assert(items@ =~= before + (n.left.contents().filter(pred)
                    + n.right.contents().filter(pred)));
            }
        },
    }
}

/// Adds `index` to the leaf that its item's position leads to. A leaf that
/// reaches `KD_LEAF_SIZE` is built anew as a tree that splits first along
/// the axis after `parent_axis`, so that leaves stay small unless their items
/// all sit at one point.
pub fn _insert_item_index<T: Positioned>(
    item_arena: &[T],
    tree: &mut KdTree,
    parent_axis: SplitAxis,
    index: usize,
)
    requires
        old(tree).wf(item_arena@),
        index < item_arena@.len(),
    ensures
        final(tree).wf(item_arena@),
        final(tree).contents().to_multiset() =~= old(tree).contents().to_multiset().insert(index),
        final(tree).home_leaf(item_arena@, index).contains(index),
        old(tree).leaves_nonempty() || (*old(tree) is Leaf) ==> final(tree).leaves_nonempty(),
        old(tree).leaves_small(item_arena@) ==> final(tree).leaves_small(item_arena@),
    decreases *old(tree),
{
    broadcast use vstd::seq_lib::to_multiset_build;

    match tree {
        KdTree::Leaf(l) => {
            let ghost before = l@;
            l.push(index);
            let leaf_size: usize = l.len();
            if leaf_size >= KD_LEAF_SIZE {
                // this leaf has grown too large: it is built anew as a tree
                let axis = parent_axis.next();
                let copy = l.clone();
                assert(copy@ =~= before.push(index));
                *tree = _construct_level(item_arena, copy, axis, 3);
            }
        },
        KdTree::Node(n) => {
            let ghost old_left = n.left.contents();
            let ghost old_right = n.right.contents();
            proof {
                vstd::seq_lib::lemma_multiset_commutative(old_left, old_right);
            }
            if n.axis.component(&item_arena[index].position()) > n.midpoint {
                _insert_item_index(item_arena, &mut *n.right, n.axis, index);
                proof {
                    lemma_same_members(n.right.contents(), old_right.push(index));
                    assert forall|k: int| 0 <= k < n.right.contents().len() implies coordinate_at(
                        item_arena@,
                        n.axis,
                        #[trigger] n.right.contents()[k],
                    ) > n.midpoint by {
                        let x = n.right.contents()[k];
                        assert(n.right.contents().contains(x));
                        assert(old_right.push(index).contains(x));
                        let m = choose|m: int|
                            0 <= m < old_right.push(index).len() && old_right.push(index)[m] == x;
                        if m < old_right.len() {
                            assert(old_right[m] == x);
                        }
                    }
                    vstd::seq_lib::lemma_multiset_commutative(old_left, n.right.contents());
                }
            } else {
                _insert_item_index(item_arena, &mut *n.left, n.axis, index);
                proof {
                    lemma_same_members(n.left.contents(), old_left.push(index));
                    assert forall|k: int| 0 <= k < n.left.contents().len() implies coordinate_at(
                        item_arena@,
                        n.axis,
                        #[trigger] n.left.contents()[k],
                    ) <= n.midpoint by {
                        let x = n.left.contents()[k];
                        assert(n.left.contents().contains(x));
                        assert(old_left.push(index).contains(x));
                        let m = choose|m: int|
                            0 <= m < old_left.push(index).len() && old_left.push(index)[m] == x;
                        if m < old_left.len() {
                            assert(old_left[m] == x);
                        }
                    }
                    vstd::seq_lib::lemma_multiset_commutative(n.left.contents(), old_right);
                }
            }
        },
    }
    proof {
        tree.contents().to_multiset_ensures();
        assert(tree.contents().to_multiset().count(index) > 0);
        tree.lemma_held_in_home_leaf(item_arena@, index);
    }
}

/// Whether `index` can be taken out of the tree: the leaf that its item's
/// position leads to holds it and another index besides.
pub fn _can_remove_item_index<T: Positioned>(item_arena: &[T], tree: &KdTree, index: usize) -> (can:
    bool)
    requires
        index < item_arena@.len(),
    ensures
        can == tree.removable(item_arena@, index),
    decreases tree,
{
    match tree {
        KdTree::Leaf(l) => l.len() >= 2 && crate::slots::holds_index(l, index),
        KdTree::Node(n) => {
            if n.axis.component(&item_arena[index].position()) > n.midpoint {
                _can_remove_item_index(item_arena, &n.right, index)
            } else {
                _can_remove_item_index(item_arena, &n.left, index)
            }
        },
    }
}

/// Takes `index` out of the leaf that its item's position leads to.
pub fn _remove_item_index<T: Positioned>(item_arena: &[T], tree: &mut KdTree, index: usize)
    requires
        old(tree).wf(item_arena@),
        index < item_arena@.len(),
        old(tree).removable(item_arena@, index),
    ensures
        final(tree).wf(item_arena@),
        final(tree).contents().to_multiset() =~= old(tree).contents().to_multiset().remove(index),
        old(tree).leaves_nonempty() ==> final(tree).leaves_nonempty(),
    decreases *old(tree),
{
    broadcast use vstd::seq_lib::to_multiset_remove;

    match tree {
        KdTree::Leaf(l) => {
            let ghost before = l@;
            let mut index_index: usize = 0;
            let mut k: usize = 0;
            while k < l.len()
                invariant
                    k <= l@.len(),
                    l@ == before,
                    index_index < l@.len(),
                    (exists|m: int| 0 <= m < k && before[m] == index) ==> before[index_index as int]
                        == index,
                decreases l@.len() - k,
            {
                if l[k] == index {
                    index_index = k;
                }
                k += 1;
            }
            l.remove(index_index);
            proof {
                assert(before[index_index as int] == index);
                assert(l@ =~= before.remove(index_index as int));
                assert forall|m: int| 0 <= m < l@.len() implies (#[trigger] l@[m])
                    < item_arena@.len() by {
                    let m0 = if m < index_index { m } else { m + 1 };
                    assert(l@[m] == before[m0]);
                }
            }
        },
        KdTree::Node(n) => {
            let ghost old_left = n.left.contents();
            let ghost old_right = n.right.contents();
            proof {
                vstd::seq_lib::lemma_multiset_commutative(old_left, old_right);
                n.left.lemma_held_in_home_leaf(item_arena@, index);
                n.right.lemma_held_in_home_leaf(item_arena@, index);
                old_left.to_multiset_ensures();
                old_right.to_multiset_ensures();
            }
            if n.axis.component(&item_arena[index].position()) > n.midpoint {
                _remove_item_index(item_arena, &mut *n.right, index);
                proof {
                    n.right.contents().to_multiset_ensures();
                    assert forall|k: int| 0 <= k < n.right.contents().len() implies coordinate_at(
                        item_arena@,
                        n.axis,
                        #[trigger] n.right.contents()[k],
                    ) > n.midpoint by {
                        let x = n.right.contents()[k];
                        assert(n.right.contents().contains(x));
                        assert(n.right.contents().to_multiset().count(x) > 0);
                        assert(old_right.to_multiset().count(x) > 0);
                        assert(old_right.contains(x));
                        let m = choose|m: int| 0 <= m < old_right.len() && old_right[m] == x;
                    }
                    vstd::seq_lib::lemma_multiset_commutative(old_left, n.right.contents());
                }
            } else {
                _remove_item_index(item_arena, &mut *n.left, index);
                proof {
                    n.left.contents().to_multiset_ensures();
                    assert forall|k: int| 0 <= k < n.left.contents().len() implies coordinate_at(
                        item_arena@,
                        n.axis,
                        #[trigger] n.left.contents()[k],
                    ) <= n.midpoint by {
                        let x = n.left.contents()[k];
                        assert(n.left.contents().contains(x));
                        assert(n.left.contents().to_multiset().count(x) > 0);
                        assert(old_left.to_multiset().count(x) > 0);
                        assert(old_left.contains(x));
                        let m = choose|m: int| 0 <= m < old_left.len() && old_left[m] == x;
                    }
                    vstd::seq_lib::lemma_multiset_commutative(n.left.contents(), old_right);
                }
            }
        },
    }
}

/// A tree keeps fitting when the arena changes only where the tree names no
/// item: every item that the tree holds has kept its position.
pub proof fn lemma_fit_depends_on_held_items<T: Positioned>(tree: KdTree, a: Seq<T>, b: Seq<T>)
    requires
        tree.wf(a),
        a.len() <= b.len(),
        forall|k: int|
            0 <= k < tree.contents().len() ==> b[(#[trigger] tree.contents()[k]) as int].location()
                == a[tree.contents()[k] as int].location(),
    ensures
        tree.wf(b),
    decreases tree,
{
    match tree {
        KdTree::Leaf(l) => {},
        KdTree::Node(n) => {
            let l = n.left.contents();
            let r = n.right.contents();
            let c = tree.contents();
            assert(c == l + r);
            assert forall|k: int| 0 <= k < l.len() implies b[(#[trigger] l[k]) as int].location()
                == a[l[k] as int].location() by {
                assert(c[k] == l[k]);
            }
            assert forall|k: int| 0 <= k < r.len() implies b[(#[trigger] r[k]) as int].location()
                == a[r[k] as int].location() by {
                assert(c[k + l.len()] == r[k]);
            }
            lemma_fit_depends_on_held_items(*n.left, a, b);
            lemma_fit_depends_on_held_items(*n.right, a, b);
        },
    }
}

/// A growing collection of positioned items with a kd-tree over all of them.
#[derive(Debug)]
pub struct KdContainer<T: Positioned> {
    pub items: Vec<T>,
    pub tree: KdTree,
}

impl<T: Positioned + Copy> KdContainer<T> {
    /// The tree fits the items and holds the index of each of them, once.
    pub open spec fn wf(&self) -> bool {
        &&& self.tree.wf(self.items@)
        &&& self.tree.contents().no_duplicates()
        &&& forall|i: usize| i < self.items@.len() ==> self.tree.contents().contains(i)
    }

    /// Creates an empty container.
    pub fn new() -> (container: Self)
        ensures
            container.wf(),
            container.items@.len() == 0,
    {
        KdContainer { items: Vec::new(), tree: KdTree::Leaf(Vec::new()) }
    }

    /// Adds an item and indexes it.
    pub fn push(&mut self, point: T)
        requires
            old(self).wf(),
        ensures
            final(self).wf(),
            final(self).items@ == old(self).items@.push(point),
    {
        let ghost before = self.items@;
        let ghost old_tree = self.tree;
        self.items.push(point);
        let index: usize = self.items.len() - 1;
        proof {
            old_tree.lemma_contents_in_bounds(before);
            lemma_fit_depends_on_held_items(old_tree, before, self.items@);
        }
        _insert_item_index(self.items.as_slice(), &mut self.tree, SplitAxis::X, index);
        proof {
            old_tree.contents().to_multiset_ensures();
            self.tree.contents().to_multiset_ensures();
            old_tree.contents().lemma_multiset_has_no_duplicates();
            assert(!old_tree.contents().contains(index)) by {
                if old_tree.contents().contains(index) {
                    let k = choose|k: int|
                        0 <= k < old_tree.contents().len() && old_tree.contents()[k] == index;
                    assert(old_tree.contents()[k] < before.len());
                }
            }
            assert forall|x: usize| self.tree.contents().to_multiset().contains(
                x,
            ) implies self.tree.contents().to_multiset().count(x) == 1 by {
                if x != index {
                    assert(old_tree.contents().to_multiset().contains(x));
                }
            }
            self.tree.contents().lemma_multiset_has_no_duplicates_conv();
            assert forall|i: usize| i < self.items@.len() implies self.tree.contents().contains(
                i,
            ) by {
                if i < before.len() {
                    assert(old_tree.contents().contains(i));
                    assert(old_tree.contents().to_multiset().count(i) > 0);
                }
                assert(self.tree.contents().to_multiset().count(i) > 0);
            }
        }
    }

    /// Adds the items of `points` one after the other.
    pub fn append(&mut self, points: Vec<T>)
        requires
            old(self).wf(),
        ensures
            final(self).wf(),
            final(self).items@ == old(self).items@ + points@,
    {
        let ghost before = self.items@;
        let mut k: usize = 0;
        while k < points.len()
            invariant
                k <= points@.len(),
                self.wf(),
                self.items@ =~= before + points@.take(k as int),
            decreases points@.len() - k,
        {
            proof {
                points@.lemma_take_succ_push(k as int);
            }
            self.push(points[k]);
            k += 1;
        }
        proof {
            points@.lemma_take_len();
        }
    }

    /// Whether some item lies within `radius` of `point`.
    pub fn any_items_in_radius(&self, point: Point3, radius: u32) -> (found: bool)
        requires
            self.wf(),
        ensures
            found == exists|i: int|
                0 <= i < self.items@.len() && within(
                    (#[trigger] self.items@[i]).location(),
                    point,
                    radius,
                ),
    {
        let found = _any_indices_within(self.items.as_slice(), &self.tree, point, radius);
        proof {
            let pred = near(self.items@, point, radius);
            let held = self.tree.contents();
            lemma_filter_nonempty(held, pred);
            if found {
                let k = choose|k: int| 0 <= k < held.len() && pred(#[trigger] held[k]);
                let i = held[k] as int;
                assert(within(self.items@[i].location(), point, radius));
            }
            if exists|i: int|
                0 <= i < self.items@.len() && within(
                    (#[trigger] self.items@[i]).location(),
                    point,
                    radius,
                ) {
                let i = choose|i: int|
                    0 <= i < self.items@.len() && within(
                        (#[trigger] self.items@[i]).location(),
                        point,
                        radius,
                    );
                assert(self.items@.len() == self.items.len());
                let slot = i as usize;
                assert(held.contains(slot));
                let k = choose|k: int| 0 <= k < held.len() && held[k] == slot;
                assert(slot as int == i);
                assert(pred(slot));
            }
        }
        found
    }
}

/// A spatial indexer that keeps its indices in a kd-tree.
pub struct KdIndexer {
    root: KdTree,
}

impl KdIndexer {
    /// The tree of the indexer.
    pub closed spec fn tree(&self) -> KdTree {
        self.root
    }

    /// Creates an indexer that holds no index.
    pub fn new() -> (indexer: Self)
        ensures
            indexer.tree().contents() == Seq::<usize>::empty(),
            indexer.tree() is Leaf,
    {
        KdIndexer { root: KdTree::Leaf(Vec::new()) }
    }
}

impl<P: Positioned> SpatialIndexer<P> for KdIndexer {
    open spec fn fits(&self, items: Seq<P>) -> bool {
        self.tree().wf(items)
    }

    open spec fn indices(&self) -> Seq<usize> {
        self.tree().contents()
    }

    open spec fn can_remove(&self, items: Seq<P>, index: usize) -> bool {
        self.tree().removable(items, index)
    }

    proof fn lemma_indices_in_bounds(&self, items: Seq<P>) {
        self.tree().lemma_contents_in_bounds(items);
    }

    proof fn lemma_fits_while_held_items_stay(&self, a: Seq<P>, b: Seq<P>) {
        let held = self.tree().contents();
        assert(held == SpatialIndexer::<P>::indices(self));
        assert forall|k: int| 0 <= k < held.len() implies b[(#[trigger] held[k]) as int].location()
            == a[held[k] as int].location() by {
            assert(SpatialIndexer::<P>::indices(self)[k] == held[k]);
        }
        lemma_fit_depends_on_held_items(self.tree(), a, b);
    }

    fn reindex(&mut self, items: &[P], indices: Vec<usize>)
        ensures
            final(self).tree().well_built(items@, SplitAxis::X),
            final(self).tree().contents() == built_contents(items@, indices@, SplitAxis::X, 3),
    {
        self.root = _construct(items, indices, SplitAxis::X)
    }

    fn insert_item_index(&mut self, items: &[P], index: usize) {
        _insert_item_index(items, &mut self.root, SplitAxis::X, index)
    }

    fn remove_item_index(&mut self, items: &[P], index: usize) {
        _remove_item_index(items, &mut self.root, index)
    }

    fn can_remove_item_index(&self, items: &[P], index: usize) -> (can: bool) {
        _can_remove_item_index(items, &self.root, index)
    }

    fn get_indices_within(&self, items: &[P], origin: Point3, radius: u32) -> (found: Vec<usize>) {
        let mut indicies: Vec<usize> = Vec::new();
        _get_indices_within(items, &self.root, origin, radius, &mut indicies);
        indicies
    }

    fn any_indices_within(&self, items: &[P], origin: Point3, radius: u32) -> (found: bool) {
        _any_indices_within(items, &self.root, origin, radius)
    }
}

} // verus!
