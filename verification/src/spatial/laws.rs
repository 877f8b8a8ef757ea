//! What holds of every tree that construction yields.
use crate::spatial::nearest::{is_nearest, lemma_searched};
use crate::spatial::order::Axis;
use crate::spatial::tree::{
    bits, lemma_grown, lemma_grown_height, lemma_splits_by_depth, spread_out, SpatialIndex,
};
use crate::y2018::day6::{manhattan, Point};
use vstd::prelude::*;

verus! {

/// A tree built from `s` is well formed and holds exactly the points of `s`,
/// each as often as `s` does.
pub proof fn lemma_built_holds_input(s: Seq<Point>, tree: SpatialIndex)
    requires
        tree.built_from(s),
    ensures
        tree.well_formed(),
        tree@ == s.to_multiset(),
{
    tree.lemma_root();
    lemma_grown(s, Axis::X);
    vstd::seq_lib::to_multiset_len(s);
}

/// In a tree built from `s` the nodes split along x at even depth and along
/// y at odd depth, and each internal node has the points with a strictly
/// smaller coordinate on its left and the others on its right.
pub proof fn lemma_built_is_ordered(s: Seq<Point>, tree: SpatialIndex)
    requires
        tree.built_from(s),
    ensures
        tree.root().ordered(Axis::X),
        tree.root().splits_by_depth(0),
{
    lemma_grown(s, Axis::X);
    lemma_splits_by_depth(tree.root(), 0);
}

/// Every point of the input is found in the tree built from it.
pub proof fn lemma_member_is_contained(s: Seq<Point>, tree: SpatialIndex, p: Point)
    requires
        tree.built_from(s),
        s.contains(p),
    ensures
        tree@.contains(p),
{
    lemma_built_holds_input(s, tree);
    vstd::seq_lib::to_multiset_contains(s, p);
}

/// A point that is not in the input is not found in the tree built from it.
pub proof fn lemma_stranger_is_not_contained(s: Seq<Point>, tree: SpatialIndex, q: Point)
    requires
        tree.built_from(s),
        !s.contains(q),
    ensures
        !tree@.contains(q),
{
    lemma_built_holds_input(s, tree);
    vstd::seq_lib::to_multiset_contains(s, q);
}

/// In a tree built from a non-empty input the search for the neighbour
/// nearest to `q` ends with a point of the input, and no point of the input
/// is nearer to `q`.
pub proof fn lemma_nearest_is_minimal(s: Seq<Point>, tree: SpatialIndex, q: Point)
    requires
        tree.built_from(s),
        s.len() > 0,
    ensures
        tree.spec_nearest(q) is Some,
        s.contains(tree.spec_nearest(q).unwrap()),
        forall|p: Point| #[trigger]
            s.contains(p) ==> manhattan(tree.spec_nearest(q).unwrap(), q)
                <= manhattan(p, q),
{
    lemma_built_holds_input(s, tree);
    tree.lemma_root();
    lemma_searched(tree.root(), Axis::X, q, None);
    vstd::seq_lib::to_multiset_len(s);
    let r = tree.spec_nearest(q).unwrap();
    vstd::seq_lib::to_multiset_contains(s, r);
    assert forall|p: Point| #[trigger] s.contains(p) implies manhattan(r, q)
        <= manhattan(p, q) by {
        vstd::seq_lib::to_multiset_contains(s, p);
        assert(tree.root().points().contains(p));
    }
}

/// The search on any well-formed tree ends with a nearest point of the tree.
pub proof fn lemma_search_finds_nearest(tree: SpatialIndex, q: Point)
    requires
        tree.well_formed(),
    ensures
        is_nearest(tree.spec_nearest(q), tree@, q),
{
    tree.lemma_root();
    lemma_searched(tree.root(), Axis::X, q, None);
}

/// The tree built from no points holds none: nothing is contained in it,
/// and the search for a nearest neighbour ends with nothing.
pub proof fn lemma_empty_tree(tree: SpatialIndex, q: Point)
    requires
        tree.built_from(Seq::empty()),
    ensures
        !tree@.contains(q),
        tree.spec_nearest(q) is None,
{
    let none = Seq::<Point>::empty();
    lemma_built_holds_input(none, tree);
    tree.lemma_root();
    vstd::seq_lib::to_multiset_contains(none, q);
}

/// Construction is a function of its input: two trees built from the same
/// sequence of points are the same tree, so they answer every containment
/// query and every nearest-neighbour query alike.
pub proof fn lemma_build_is_deterministic(
    s: Seq<Point>,
    first: SpatialIndex,
    second: SpatialIndex,
    q: Point,
)
    requires
        first.built_from(s),
        second.built_from(s),
    ensures
        first@.contains(q) == second@.contains(q),
        first.spec_nearest(q) == second.spec_nearest(q),
{
    first.lemma_root();
    second.lemma_root();
}

/// A tree built from points of which no two share a coordinate on either
/// axis is balanced: it is no higher than the number of its points has
/// binary digits.
pub proof fn lemma_height_is_logarithmic(s: Seq<Point>, tree: SpatialIndex)
    requires
        tree.built_from(s),
        spread_out(s),
    ensures
        tree.root().height() <= bits(s.len()),
{
    lemma_grown_height(s, Axis::X);
}

} // verus!
