//! What a value must offer to be stored in the tree.

use vstd::prelude::*;
use crate::volume::Point3;

verus! {

/// A value that the tree can store.
///
/// The three specification functions name what the executable methods return,
/// so that the tree's contracts can speak of an item's place, of whether a
/// leaf takes two items for one, and of visibility. An implementation must
/// return, on every call, the value that its specification function gives:
/// what is proved of the tree holds of such implementations. Verus holds a
/// verified implementation to that; one that is compiled without Verus is
/// taken at its word.
pub trait OctreeItem: Sized {
    /// What a visibility query is made against.
    type Frustum;

    /// The point by which the item is routed through the tree.
    spec fn index_point(&self) -> Point3;

    /// Whether a leaf that holds `self` takes `other` for the same item.
    spec fn same_as(&self, other: &Self) -> bool;

    /// Whether the item is not entirely outside `frustum`.
    spec fn visible_in(&self, frustum: &Self::Frustum) -> bool;

    fn index(&self) -> (p: Point3)
        ensures
            p == self.index_point(),
    ;

    fn is_equal(&self, other: &Self) -> (same: bool)
        ensures
            same == self.same_as(other),
    ;

    fn in_frustum(&self, frustum: &Self::Frustum) -> (inside: bool)
        ensures
            inside == self.visible_in(frustum),
    ;
}

} // verus!
