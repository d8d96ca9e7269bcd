//! The tree: one root node over a volume that is fixed when the tree is made.

use vstd::prelude::*;
use crate::cell::Cell;
use crate::item::OctreeItem;
use crate::octreenode::{refs, shown, OctreeNode, VolumeEntry};
use crate::volume::{Aabb3, Point3};

verus! {

/// An octree: items are stored by their index point within the volume of the
/// root, and are never removed.
pub struct Octree<I: OctreeItem> {
    root: OctreeNode<I>,
}

impl<I: OctreeItem> View for Octree<I> {
    type V = Cell<I>;

    closed spec fn view(&self) -> Cell<I> {
        self.root@
    }
}

impl<I: OctreeItem> Octree<I> {
    #[verifier::type_invariant]
    spec fn sound(self) -> bool {
        self.root.wf() && self.root@.compact()
    }

    /// The empty tree over the cube that reaches `corner` from the origin in
    /// every direction.
    pub fn new(corner: i64) -> (tree: Octree<I>)
        requires
            corner > i64::MIN,
        ensures
            tree@ == Cell::<I>::empty(
                Aabb3::spanning(
                    Point3 { x: (-corner) as i64, y: (-corner) as i64, z: (-corner) as i64 },
                    Point3 { x: corner, y: corner, z: corner },
                ),
            ),
            tree@.wf(),
            tree@.compact(),
    {
        Octree {
            root: OctreeNode::leaf(
                Aabb3::new(Point3::new(-corner, -corner, -corner), Point3::new(corner, corner, corner)),
            ),
        }
    }

    /// The empty tree over `vol`.
    pub fn from(vol: &Aabb3) -> (tree: Octree<I>)
        ensures
            tree@ == Cell::<I>::empty(*vol),
            tree@.wf(),
            tree@.compact(),
    {
        Octree { root: OctreeNode::leaf(*vol) }
    }

    /// Stores `item` and says whether it was stored. An item whose index
    /// point lies outside the tree's volume is refused, and so is one that
    /// reaches a leaf whose item takes it for the same; the tree then stays
    /// as it is.
    pub fn insert(&mut self, item: I) -> (stored: bool)
        ensures
            final(self)@ == old(self)@.inserted(item),
            stored == old(self)@.accepts(item),
            final(self)@.wf(),
            final(self)@.compact(),
            final(self)@.volume == old(self)@.volume,
            stored ==> final(self)@.items().to_multiset() == old(self)@.items().to_multiset().insert(
                item,
            ),
            stored ==> final(self)@.items().len() == old(self)@.items().len() + 1,
            !stored ==> final(self)@ == old(self)@,
    {
        proof {
            use_type_invariant(&*self);
        }
        let mut root = OctreeNode::leaf(self.root.volume());
        std::mem::swap(&mut root, &mut self.root);
        let stored = root.insert(item);
        self.root = root;
        stored
    }

    /// The listing of the volumes of the tree, level by level from the root,
    /// whose parts are at level 0. The caller writes the listing out.
    pub fn print_volume_by_level(&self) -> (lines: Vec<VolumeEntry<I>>)
        ensures
            shown(lines@) == self@.volume_lines(0),
    {
        proof {
            use_type_invariant(self);
        }
        self.root.print_volume_by_level(0)
    }

    /// The number of items in the tree.
    pub fn members(&self) -> (member: usize)
        requires
            self@.items().len() <= usize::MAX,
        ensures
            member == self@.items().len(),
    {
        self.root.members()
    }

    /// The items that are not entirely outside `frustum`, in the order in
    /// which a depth-first walk of the tree meets them.
    pub fn frustum_culling(&self, frustum: &I::Frustum) -> (inside: Vec<&I>)
        ensures
            refs(inside@) == self@.visible(*frustum),
    {
        self.root.frustum_culling(frustum)
    }

    /// As [`Octree::frustum_culling`]; `capacity` is the room that the result
    /// has from the start, and changes nothing in what is returned.
    pub fn culling_w_capacity(&self, frustum: &I::Frustum, capacity: usize) -> (inside: Vec<&I>)
        ensures
            refs(inside@) == self@.visible(*frustum),
    {
        self.root.frustum_culling_cap(frustum, capacity)
    }
}

} // verus!
