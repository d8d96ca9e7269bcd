use octree::item::OctreeItem;
use octree::octree::Octree;
use octree::octreenode::{LeafEntry, OctreeNode, VolumeEntry};
use octree::volume::{Aabb3, Point3};

/// An item that is a point with a name; two items are the same when their
/// names are.
#[derive(Clone, Debug, PartialEq)]
struct Dot {
    name: u32,
    at: Point3,
}

fn dot(name: u32, x: i64, y: i64, z: i64) -> Dot {
    Dot { name, at: Point3::new(x, y, z) }
}

impl OctreeItem for Dot {
    type Frustum = Aabb3;

    fn index_point(&self) -> Point3 {
        self.index()
    }

    fn same_as(&self, other: &Self) -> bool {
        self.is_equal(other)
    }

    fn visible_in(&self, frustum: &Aabb3) -> bool {
        self.in_frustum(frustum)
    }

    fn index(&self) -> Point3 {
        self.at
    }

    fn is_equal(&self, other: &Self) -> bool {
        self.name == other.name
    }

    fn in_frustum(&self, frustum: &Aabb3) -> bool {
        frustum.contains(&self.at)
    }
}

fn everything() -> Aabb3 {
    Aabb3::new(Point3::new(i64::MIN, i64::MIN, i64::MIN), Point3::new(i64::MAX, i64::MAX, i64::MAX))
}

fn names(found: &Vec<&Dot>) -> Vec<u32> {
    found.iter().map(|d| d.name).collect()
}

#[test]
fn an_item_outside_the_volume_is_refused() {
    let mut tree: Octree<Dot> = Octree::new(100);
    assert!(tree.insert(dot(1, 5, 5, 5)));
    assert!(!tree.insert(dot(2, 100, 0, 0)));
    assert!(!tree.insert(dot(3, 0, -101, 0)));
    assert!(!tree.insert(dot(4, 0, 0, 1000)));
    assert!(!tree.insert(dot(5, 100, 100, 100)));
    assert_eq!(tree.members(), 1);
    assert_eq!(names(&tree.frustum_culling(&everything())), vec![1]);
}

#[test]
fn the_minimum_corner_is_inside_and_the_maximum_corner_is_not() {
    let mut tree: Octree<Dot> = Octree::new(100);
    assert!(tree.insert(dot(1, -100, -100, -100)));
    assert!(tree.insert(dot(2, 99, 99, 99)));
    assert!(!tree.insert(dot(3, 100, 99, 99)));
    assert_eq!(tree.members(), 2);
}

#[test]
fn a_negative_corner_gives_the_same_cube() {
    let mut tree: Octree<Dot> = Octree::new(-100);
    assert!(tree.insert(dot(1, -100, 99, 0)));
    assert!(!tree.insert(dot(2, -101, 0, 0)));
    assert_eq!(tree.members(), 1);
}

#[test]
fn a_tree_over_a_given_volume_takes_what_lies_in_it() {
    let vol = Aabb3::new(Point3::new(0, 10, 20), Point3::new(40, 12, 21));
    let mut tree: Octree<Dot> = Octree::from(&vol);
    assert!(tree.insert(dot(1, 0, 10, 20)));
    assert!(tree.insert(dot(2, 39, 11, 20)));
    assert!(tree.insert(dot(3, 20, 11, 20)));
    assert!(!tree.insert(dot(4, 40, 11, 20)));
    assert!(!tree.insert(dot(5, 20, 12, 20)));
    assert!(!tree.insert(dot(6, 20, 11, 21)));
    assert_eq!(tree.members(), 3);
    let mut found = names(&tree.frustum_culling(&everything()));
    found.sort();
    assert_eq!(found, vec![1, 2, 3]);
}

#[test]
fn members_counts_the_insertions_that_stored_their_item() {
    let mut tree: Octree<Dot> = Octree::new(64);
    let mut stored = 0;
    let mut name = 0;
    for x in -70..70 {
        name += 1;
        if tree.insert(dot(name, x, (x * 7) % 64, (x * 13) % 64)) {
            stored += 1;
        }
        assert_eq!(tree.members(), stored);
    }
    assert_eq!(stored, 128);
    assert!(!tree.insert(dot(1_000, 64, 0, 0)));
    assert_eq!(tree.members(), 128);
}

#[test]
fn a_leaf_absorbs_the_item_it_takes_for_its_own() {
    let mut tree: Octree<Dot> = Octree::new(100);
    assert!(tree.insert(dot(1, 10, 10, 10)));
    assert!(!tree.insert(dot(1, 10, 10, 10)));
    assert!(!tree.insert(dot(1, 10, 10, 10)));
    assert_eq!(tree.members(), 1);
    let lines = tree.print_volume_by_level();
    assert_eq!(lines.len(), 0);
    assert!(tree.insert(dot(2, -10, 10, 10)));
    assert!(!tree.insert(dot(2, -10, 10, 10)));
    assert_eq!(tree.members(), 2);
}

#[test]
fn an_item_with_a_taken_name_at_another_place_of_a_leaf_is_absorbed() {
    let mut node: OctreeNode<Dot> = OctreeNode::leaf(Aabb3::new(Point3::new(0, 0, 0), Point3::new(8, 8, 8)));
    assert!(node.insert(dot(1, 1, 1, 1)));
    assert!(!node.insert(dot(1, 7, 7, 7)));
    assert_eq!(node.members(), 1);
    assert_eq!(node.len(), 0);
}

#[test]
fn two_items_split_a_leaf_until_they_part() {
    let mut node: OctreeNode<Dot> = OctreeNode::leaf(Aabb3::new(Point3::new(0, 0, 0), Point3::new(8, 8, 8)));
    assert!(node.insert(dot(1, 0, 0, 0)));
    assert_eq!(node.len(), 0);
    assert!(node.insert(dot(2, 1, 0, 0)));
    assert_eq!(node.members(), 2);
    assert_eq!(node.len(), 24);
    assert_eq!(node.items_in_leaf(), 2);
    assert_eq!(node.items_in_min_leaf(), 0);
    let leaves = node.print_leaf(0);
    assert_eq!(leaves.len(), 2);
    match (&leaves[0], &leaves[1]) {
        (LeafEntry::Leaf { item: first, level: 3 }, LeafEntry::Leaf { item: second, level: 3 }) => {
            assert_eq!(first.name, 1);
            assert_eq!(second.name, 2);
        }
        _ => panic!("two leaves at the third level were expected"),
    }
}

#[test]
fn items_at_one_point_gather_in_one_list() {
    let mut node: OctreeNode<Dot> = OctreeNode::leaf(Aabb3::new(Point3::new(0, 0, 0), Point3::new(8, 8, 8)));
    for name in 1..=5 {
        assert!(node.insert(dot(name, 5, 6, 7)));
    }
    assert!(node.insert(dot(1, 5, 6, 7)));
    assert_eq!(node.members(), 6);
    assert_eq!(node.items_in_leaf(), 0);
    assert_eq!(node.items_in_min_leaf(), 6);
    assert_eq!(node.len(), 24);
    let leaves = node.print_leaf(10);
    assert_eq!(leaves.len(), 1);
    match &leaves[0] {
        LeafEntry::MinLeaf { items, level } => {
            assert_eq!(*level, 13);
            let held: Vec<u32> = items.iter().map(|d| d.name).collect();
            assert_eq!(held, vec![1, 2, 3, 4, 5, 1]);
        }
        LeafEntry::Leaf { .. } => panic!("a list was expected"),
    }
}

#[test]
fn a_root_at_the_minimum_size_is_never_split() {
    let mut node: OctreeNode<Dot> = OctreeNode::leaf(Aabb3::new(Point3::new(0, 0, 0), Point3::new(1, 9, 9)));
    assert!(node.insert(dot(1, 0, 0, 0)));
    assert!(node.insert(dot(2, 0, 8, 8)));
    assert!(node.insert(dot(3, 0, 4, 4)));
    assert_eq!(node.len(), 0);
    assert_eq!(node.members(), 3);
    assert_eq!(node.print_volume_by_level(0).len(), 0);
    assert_eq!(names(&node.frustum_culling(&everything())), vec![1, 2, 3]);
}

#[test]
fn the_widest_tree_is_no_deeper_than_sixty_four() {
    let mut tree: OctreeNode<Dot> = OctreeNode::leaf(everything());
    assert!(tree.insert(dot(1, 0, 0, 0)));
    assert!(tree.insert(dot(2, 0, 0, 0)));
    assert!(tree.insert(dot(3, 1, 0, 0)));
    assert!(tree.insert(dot(4, i64::MIN, i64::MIN, i64::MIN)));
    assert!(tree.insert(dot(5, i64::MAX - 1, i64::MAX - 1, i64::MAX - 1)));
    assert!(!tree.insert(dot(6, i64::MAX, 0, 0)));
    assert_eq!(tree.members(), 5);
    let leaves = tree.print_leaf(0);
    let mut deepest = 0;
    for line in leaves.iter() {
        let level = match line {
            LeafEntry::Leaf { level, .. } => *level,
            LeafEntry::MinLeaf { level, .. } => *level,
        };
        if level > deepest {
            deepest = level;
        }
    }
    assert_eq!(deepest, 64);
}

#[test]
fn the_parts_of_every_split_node_are_its_octants() {
    let mut node: OctreeNode<Dot> = OctreeNode::leaf(Aabb3::new(Point3::new(-8, -8, -8), Point3::new(8, 8, 8)));
    let mut name = 0;
    for x in [-8, -3, 0, 1, 7] {
        for y in [-8, 2, 7] {
            name += 1;
            assert!(node.insert(dot(name, x, y, (x + y) % 8)));
        }
    }
    let lines = node.print_volume_by_level(0);
    let mut k = 0;
    let mut headings = 0;
    while k < lines.len() {
        match &lines[k] {
            VolumeEntry::Level(_) => {
                headings += 1;
                let mut parts: Vec<Aabb3> = Vec::new();
                for line in lines[k + 1..k + 9].iter() {
                    parts.push(match line {
                        VolumeEntry::Internal(vol) => *vol,
                        VolumeEntry::Leaf(vol, _) => *vol,
                        VolumeEntry::MinLeaf(vol, _) => *vol,
                        VolumeEntry::Empty(vol) => *vol,
                        VolumeEntry::Level(_) => panic!("a heading among the parts"),
                    });
                }
                let whole = Aabb3::new(parts[0].min, parts[7].max);
                assert_eq!(parts, whole.octants());
                k += 9;
            }
            _ => panic!("a heading was expected"),
        }
    }
    assert_eq!(headings, node.len() / 8);
}
