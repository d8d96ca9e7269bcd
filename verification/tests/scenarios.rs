use cgmath::{Point3 as Corner, Vector3};
use collision::{Aabb, Aabb3 as Bounds, Frustum, Plane, Relation};
use octree::item::OctreeItem;
use octree::octree::Octree;
use octree::octreenode::{LeafEntry, OctreeNode, VolumeEntry};
use octree::volume::{Aabb3, Point3};

/// A box in space with a number to tell it from the others.
#[derive(Clone, Debug, PartialEq)]
struct Block {
    id: u32,
    bounds: Bounds<f32>,
}

impl Block {
    fn at(id: u32, x: f32, y: f32, z: f32) -> Block {
        Block {
            id,
            bounds: Bounds::new(
                Corner::new(x - 0.25, y - 0.25, z - 0.25),
                Corner::new(x + 0.25, y + 0.25, z + 0.25),
            ),
        }
    }
}

impl OctreeItem for Block {
    type Frustum = Frustum<f32>;

    fn index_point(&self) -> Point3 {
        self.index()
    }

    fn same_as(&self, other: &Self) -> bool {
        self.is_equal(other)
    }

    fn visible_in(&self, frustum: &Frustum<f32>) -> bool {
        self.in_frustum(frustum)
    }

    fn index(&self) -> Point3 {
        let c = self.bounds.center();
        Point3::new(c.x.floor() as i64, c.y.floor() as i64, c.z.floor() as i64)
    }

    fn is_equal(&self, other: &Self) -> bool {
        self.id == other.id && self.bounds == other.bounds
    }

    fn in_frustum(&self, frustum: &Frustum<f32>) -> bool {
        match frustum.contains(&self.bounds) {
            Relation::Out => false,
            _ => true,
        }
    }
}

/// The frustum that is the box from `lo` to `hi` on every axis.
fn box_frustum(lo: f32, hi: f32) -> Frustum<f32> {
    Frustum::new(
        Plane::new(Vector3::new(1.0, 0.0, 0.0), lo),
        Plane::new(Vector3::new(-1.0, 0.0, 0.0), -hi),
        Plane::new(Vector3::new(0.0, 1.0, 0.0), lo),
        Plane::new(Vector3::new(0.0, -1.0, 0.0), -hi),
        Plane::new(Vector3::new(0.0, 0.0, 1.0), lo),
        Plane::new(Vector3::new(0.0, 0.0, -1.0), -hi),
    )
}

fn ids(found: &Vec<&Block>) -> Vec<u32> {
    let mut ids: Vec<u32> = found.iter().map(|b| b.id).collect();
    ids.sort();
    ids
}

#[test]
fn three_items_and_one_octant() {
    let mut tree: Octree<Block> = Octree::new(100);
    assert!(tree.insert(Block::at(1, 50.0, 50.0, 50.0)));
    assert!(tree.insert(Block::at(2, -50.0, -50.0, -50.0)));
    assert!(tree.insert(Block::at(3, 90.0, 90.0, 90.0)));
    assert_eq!(tree.members(), 3);
    let octant = box_frustum(0.0, 100.0);
    let found = tree.frustum_culling(&octant);
    assert_eq!(ids(&found), vec![1, 3]);
    let found = tree.culling_w_capacity(&octant, 16);
    assert_eq!(ids(&found), vec![1, 3]);
}

#[test]
fn two_items_at_one_point_share_a_min_leaf() {
    let mut tree: Octree<Block> = Octree::new(100);
    assert!(tree.insert(Block::at(1, 10.5, 10.5, 10.5)));
    assert!(tree.insert(Block::at(2, 10.5, 10.5, 10.5)));
    assert_eq!(tree.members(), 2);
    let around = box_frustum(0.0, 20.0);
    assert_eq!(ids(&tree.frustum_culling(&around)), vec![1, 2]);
    assert_eq!(ids(&tree.culling_w_capacity(&around, 1)), vec![1, 2]);

    let mut node: OctreeNode<Block> = OctreeNode::leaf(Aabb3::new(
        Point3::new(-100, -100, -100),
        Point3::new(100, 100, 100),
    ));
    assert!(node.insert(Block::at(1, 10.5, 10.5, 10.5)));
    assert!(node.insert(Block::at(2, 10.5, 10.5, 10.5)));
    let leaves = node.print_leaf(0);
    assert_eq!(leaves.len(), 1);
    match &leaves[0] {
        LeafEntry::MinLeaf { items, level } => {
            assert_eq!(items.len(), 2);
            assert_eq!(items[0].id, 1);
            assert_eq!(items[1].id, 2);
            assert_eq!(*level, 8);
        }
        LeafEntry::Leaf { .. } => panic!("the two items are not in one list"),
    }
}

#[test]
fn volume_listing_of_a_split_root() {
    let mut tree: Octree<Block> = Octree::new(100);
    assert!(tree.insert(Block::at(1, 50.0, 50.0, 50.0)));
    assert!(tree.insert(Block::at(2, -50.0, -50.0, -50.0)));
    let lines = tree.print_volume_by_level();
    assert_eq!(lines.len(), 9);
    assert!(matches!(lines[0], VolumeEntry::Level(0)));
    match &lines[1] {
        VolumeEntry::Leaf(vol, item) => {
            assert_eq!(*vol, Aabb3::new(Point3::new(-100, -100, -100), Point3::new(0, 0, 0)));
            assert_eq!(item.id, 2);
        }
        _ => panic!("the first octant holds the item at -50"),
    }
    match &lines[8] {
        VolumeEntry::Leaf(vol, item) => {
            assert_eq!(*vol, Aabb3::new(Point3::new(0, 0, 0), Point3::new(100, 100, 100)));
            assert_eq!(item.id, 1);
        }
        _ => panic!("the last octant holds the item at 50"),
    }
    for k in 2..8 {
        assert!(matches!(lines[k], VolumeEntry::Empty(_)));
    }
}

#[test]
fn items_closer_than_a_unit_share_a_min_leaf() {
    let mut node: OctreeNode<Block> = OctreeNode::leaf(Aabb3::new(
        Point3::new(-100, -100, -100),
        Point3::new(100, 100, 100),
    ));
    assert!(node.insert(Block::at(1, 10.2, 10.2, 10.2)));
    assert!(node.insert(Block::at(2, 10.4, 10.6, 10.8)));
    assert!(node.insert(Block::at(3, 10.9, 10.1, 10.5)));
    assert!(node.insert(Block::at(4, 11.1, 10.1, 10.5)));
    assert_eq!(node.members(), 4);
    assert_eq!(node.items_in_min_leaf(), 3);
    assert_eq!(node.items_in_leaf(), 1);
    let leaves = node.print_leaf(0);
    assert_eq!(leaves.len(), 2);
    match &leaves[0] {
        LeafEntry::MinLeaf { items, level } => {
            let held: Vec<u32> = items.iter().map(|b| b.id).collect();
            assert_eq!(held, vec![1, 2, 3]);
            assert_eq!(*level, 8);
        }
        LeafEntry::Leaf { .. } => panic!("the three items are not in one list"),
    }
    let around = box_frustum(10.0, 11.0);
    assert_eq!(ids(&node.frustum_culling(&around)), vec![1, 2, 3, 4]);
    let inside = box_frustum(10.0, 10.8);
    assert_eq!(ids(&node.frustum_culling(&inside)), vec![1, 2, 3]);
}

#[test]
fn an_item_is_culled_by_its_own_volume_at_any_depth() {
    let mut tree: Octree<Block> = Octree::new(128);
    let mut all: Vec<Block> = Vec::new();
    let mut id = 0;
    for x in [-120.5, -60.5, -1.5, 0.5, 1.5, 2.5, 64.5, 127.5] {
        for y in [-100.5, 0.5, 1.5, 90.5] {
            id += 1;
            let block = Block::at(id, x, y, x / 2.0);
            assert!(tree.insert(block.clone()));
            all.push(block);
        }
    }
    assert_eq!(tree.members(), 32);
    for (lo, hi) in [(-128.0, 128.0), (0.0, 3.0), (-61.0, 1.0), (200.0, 300.0), (0.75, 1.0)] {
        let frustum = box_frustum(lo, hi);
        let mut expected: Vec<u32> = all.iter().filter(|b| b.in_frustum(&frustum)).map(|b| b.id).collect();
        expected.sort();
        assert_eq!(ids(&tree.frustum_culling(&frustum)), expected);
        assert_eq!(ids(&tree.culling_w_capacity(&frustum, 8)), expected);
    }
}
