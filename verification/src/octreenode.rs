//! The nodes of the tree: insertion, enumeration and the queries.

use vstd::prelude::*;
use crate::cell::{Cell, Content, LeafLine, VolumeLine};
use crate::item::OctreeItem;
use crate::volume::{Aabb3, MinVolume, Point3, Surround};

verus! {

enum NodeType<I: OctreeItem> {
    Internal(Vec<OctreeNode<I>>),
    Leaf(I),
    MinLeaf(Vec<I>),
    Empty,
}

/// A node: a volume and what it holds.
pub struct OctreeNode<I: OctreeItem> {
    aabb: Aabb3,
    node_type: NodeType<I>,
}

/// What an insertion does at the node it has reached.
enum Step {
    /// Go on in the part with this number.
    Descend(usize),
    /// No part takes the item, which the octants of a well-formed node rule
    /// out.
    Lost,
    /// The node is empty and takes the item.
    Fill,
    /// The node holds a list, and the item joins it.
    Append,
    /// The node's one item takes the new item for the same.
    Absorb,
    /// The node's one item differs from the new item.
    Divide,
}

impl<I: OctreeItem> View for OctreeNode<I> {
    type V = Cell<I>;

    open spec fn view(&self) -> Cell<I> {
        self.cell()
    }
}

/// A walk over a node and all nodes below it, one node at a time.
pub struct DfsIter<'a, I: OctreeItem> {
    stack: Vec<&'a OctreeNode<I>>,
}

/// One entry of the listing that [`OctreeNode::print_leaf`] makes.
pub enum LeafEntry<'a, I> {
    /// A leaf with its one item.
    Leaf { item: &'a I, level: u16 },
    /// A leaf at the minimum size with its list of items.
    MinLeaf { items: &'a Vec<I>, level: u16 },
}

/// One entry of the listing that [`OctreeNode::print_volume_by_level`] makes.
pub enum VolumeEntry<'a, I> {
    /// The heading of a split node: how many splits lie above its parts.
    Level(u32),
    /// A part that is split itself.
    Internal(Aabb3),
    /// A part that holds one item.
    Leaf(Aabb3, &'a I),
    /// A part that holds a list of items.
    MinLeaf(Aabb3, &'a Vec<I>),
    /// A part that holds nothing.
    Empty(Aabb3),
}

impl<'a, I> View for LeafEntry<'a, I> {
    type V = LeafLine<I>;

    open spec fn view(&self) -> LeafLine<I> {
        match *self {
            LeafEntry::Leaf { item, level } => LeafLine::Leaf { item: *item, level: level as int },
            LeafEntry::MinLeaf { items, level } => LeafLine::MinLeaf { items: items@, level: level as int },
        }
    }
}

impl<'a, I> View for VolumeEntry<'a, I> {
    type V = VolumeLine<I>;

    open spec fn view(&self) -> VolumeLine<I> {
        match *self {
            VolumeEntry::Level(level) => VolumeLine::Level(level as int),
            VolumeEntry::Internal(vol) => VolumeLine::Internal(vol),
            VolumeEntry::Leaf(vol, item) => VolumeLine::Leaf(vol, *item),
            VolumeEntry::MinLeaf(vol, items) => VolumeLine::MinLeaf(vol, items@),
            VolumeEntry::Empty(vol) => VolumeLine::Empty(vol),
        }
    }
}

/// The views of the elements of a sequence.
pub open spec fn shown<T: View>(s: Seq<T>) -> Seq<T::V> {
    Seq::new(s.len(), |i: int| s[i]@)
}

/// The values that a sequence of references points to.
pub open spec fn refs<I>(s: Seq<&I>) -> Seq<I> {
    Seq::new(s.len(), |i: int| *s[i])
}

impl<'a, I: OctreeItem> DfsIter<'a, I> {
    /// The nodes that wait on the stack, the next one last.
    pub closed spec fn pending(&self) -> Seq<Cell<I>> {
        Seq::new(self.stack@.len(), |i: int| self.stack@[i]@)
    }

    /// The nodes that the walk has still to visit, in the order of the visits.
    pub open spec fn remaining(&self) -> Seq<Cell<I>> {
        Cell::walk_of(self.pending(), self.pending().len())
    }

    /// A walk that starts at `node`.
    pub fn new(node: &'a OctreeNode<I>) -> (iter: DfsIter<'a, I>)
        ensures
            iter.remaining() == node@.walk(),
    {
        let mut stack: Vec<&'a OctreeNode<I>> = Vec::new();
        stack.push(node);
        let iter = DfsIter { stack };
        proof {
            assert(iter.pending() =~= seq![node@]);
            assert(Cell::walk_of(seq![node@], 0) =~= Seq::<Cell<I>>::empty());
            assert(iter.remaining() =~= node@.walk());
        }
        iter
    }

    /// The next node of the walk, if one is left. The parts of a split node
    /// are visited after it, the last part first.
    pub fn next(&mut self) -> (node: Option<&'a OctreeNode<I>>)
        ensures
            match node {
                Some(n) => {
                    &&& old(self).remaining().len() > 0
                    &&& n@ == old(self).remaining()[0]
                    &&& final(self).remaining() == old(self).remaining().drop_first()
                },
                None => old(self).remaining().len() == 0 && final(self).remaining().len() == 0,
            },
    {
        let ghost before = self.pending();
        if self.stack.is_empty() {
            return None;
        }
        let node: &'a OctreeNode<I> = self.stack.pop().unwrap();
        let ghost base = self.pending();
        proof {
            assert(base =~= before.drop_last());
            assert(before.last() == node@);
            Cell::lemma_walk_of_prefix(before, base, base.len());
            assert(old(self).remaining() =~= node@.walk() + Cell::walk_of(base, base.len()));
        }
        match &node.node_type {
            NodeType::Internal(children) => {
                proof {
                    node.lemma_parts();
                }
                let ghost parts = node@.children();
                let mut k: usize = 0;
                while k < children.len()
                    invariant
                        k <= children@.len(),
                        parts.len() == children@.len(),
                        forall|j: int| 0 <= j < parts.len() ==> #[trigger] parts[j] == children@[j]@,
                        self.pending() == base + parts.take(k as int),
                    decreases children@.len() - k,
                {
                    let ghost prev = self.pending();
                    self.stack.push(&children[k]);
                    proof {
                        let now = self.pending();
                        assert(now.len() == prev.len() + 1);
                        assert forall|i: int| 0 <= i < prev.len() implies now[i] == prev[i] by {}
                        assert(now[prev.len() as int] == parts[k as int]);
                        assert(now =~= prev.push(parts[k as int]));
                        assert(parts.take(k + 1) =~= parts.take(k as int).push(parts[k as int]));
                        assert(now =~= base + parts.take(k + 1));
                    }
                    k = k + 1;
                }
                proof {
                    assert(parts.take(k as int) =~= parts);
                    Cell::lemma_walk_of_concat(base, parts);
                    assert(node@.walk() =~= seq![node@] + Cell::walk_of(parts, parts.len()));
                    assert(self.remaining() =~= old(self).remaining().drop_first());
                }
            },
            _ => {
                proof {
                    assert(self.remaining() =~= old(self).remaining().drop_first());
                }
            },
        }
        Some(node)
    }
}

/// The first of `children` whose volume holds `p`.
fn child_for<I: OctreeItem>(children: &Vec<OctreeNode<I>>, p: &Point3) -> (found: Option<usize>)
    ensures
        match found {
            Some(k) => k < children@.len() && children@[k as int].aabb.holds(*p) && forall|j: int|
                0 <= j < k ==> !(#[trigger] children@[j]).aabb.holds(*p),
            None => forall|j: int| 0 <= j < children@.len() ==> !(#[trigger] children@[j]).aabb.holds(*p),
        },
{
    let mut k: usize = 0;
    while k < children.len()
        invariant
            k <= children@.len(),
            forall|j: int| 0 <= j < k ==> !(#[trigger] children@[j]).aabb.holds(*p),
        decreases children@.len() - k,
    {
        if children[k].aabb.contains(p) {
            return Some(k);
        }
        k = k + 1;
    }
    None
}

impl<I: OctreeItem> OctreeNode<I> {
    /// The model of the node.
    pub closed spec fn cell(&self) -> Cell<I>
        decreases self,
    {
        Cell {
            volume: self.aabb,
            content: match self.node_type {
                NodeType::Internal(v) => Content::Internal(
                    Seq::new(
                        v@.len(),
                        |k: int|
                            if 0 <= k < v@.len() {
                                v@[k].cell()
                            } else {
                                arbitrary()
                            },
                    ),
                ),
                NodeType::Leaf(e) => Content::Leaf(e),
                NodeType::MinLeaf(v) => Content::MinLeaf(v@),
                NodeType::Empty => Content::Empty,
            },
        }
    }

    /// The parts of a split node are modelled one by one.
    proof fn lemma_parts(&self)
        requires
            self.node_type is Internal,
        ensures
            self@.content is Internal,
            self@.children().len() == self.node_type->Internal_0@.len(),
            forall|j: int|
                0 <= j < self@.children().len() ==> {
                    &&& (#[trigger] self@.children()[j]) == self.node_type->Internal_0@[j]@
                    &&& self@.children()[j].volume == self.node_type->Internal_0@[j].aabb
                },
    {
    }

    /// The node is well formed when its model is.
    pub open spec fn wf(&self) -> bool {
        self@.wf()
    }

    /// The volume that the node covers.
    pub fn volume(&self) -> (vol: Aabb3)
        ensures
            vol == self@.volume,
    {
        self.aabb
    }

    /// The empty node over `aabb`.
    pub fn leaf(aabb: Aabb3) -> (node: OctreeNode<I>)
        ensures
            node@ == Cell::<I>::empty(aabb),
            node.wf(),
            node@.compact(),
    {
        OctreeNode { aabb, node_type: NodeType::Empty }
    }

    /// Splits a leaf above the minimum size into eight empty parts and hands
    /// out the item that it held. Any other node stays as it is.
    fn subdivide(&mut self) -> (held: Option<I>)
        requires
            old(self).wf(),
        ensures
            match old(self)@.content {
                Content::Leaf(e) if !old(self)@.volume.minimal() => {
                    &&& held == Some(e)
                    &&& final(self)@ == (Cell {
                        volume: old(self)@.volume,
                        content: Content::Internal(Cell::<I>::empties(old(self)@.volume)),
                    })
                },
                _ => held is None && *final(self) == *old(self),
            },
    {
        let splits = match &self.node_type {
            NodeType::Leaf(_) => !self.aabb.is_min(),
            _ => false,
        };
        if !splits {
            return None;
        }
        let parts = self.aabb.octants();
        let mut children: Vec<OctreeNode<I>> = Vec::with_capacity(8);
        let mut k: usize = 0;
        while k < 8
            invariant
                k <= 8,
                parts@.len() == 8,
                children@.len() == k,
                forall|j: int| 0 <= j < k ==> (#[trigger] children@[j])@ == Cell::<I>::empty(parts@[j]),
            decreases 8 - k,
        {
            children.push(OctreeNode::leaf(parts[k]));
            k = k + 1;
        }
        let mut taken = NodeType::Internal(children);
        std::mem::swap(&mut self.node_type, &mut taken);
        proof {
            let got = self@.content->Internal_0;
            assert(got =~= Cell::<I>::empties(self.aabb));
        }
        match taken {
            NodeType::Leaf(e) => Some(e),
            _ => None,
        }
    }

    /// What an insertion of `item`, whose index point is `p`, does here.
    fn step_for(&self, item: &I, p: &Point3) -> (step: Step)
        requires
            self.wf(),
            self.aabb.holds(*p),
            *p == item.index_point(),
        ensures
            match step {
                Step::Descend(k) => self@.content is Internal && k == self@.volume.octant_of(*p),
                Step::Lost => false,
                Step::Fill => self@.content is Empty,
                Step::Append => self@.content is MinLeaf,
                Step::Absorb => self@.content is Leaf && self@.content->Leaf_0.same_as(item),
                Step::Divide => self@.content is Leaf && !self@.content->Leaf_0.same_as(item),
            },
    {
        match &self.node_type {
            NodeType::Internal(children) => {
                proof {
                    self.aabb.lemma_octants_tile(*p);
                    let k = self.aabb.octant_of(*p);
                    let cs = self@.content->Internal_0;
                    assert(cs[k].volume == self.aabb.octant(k));
                    assert(cs[k] == children@[k].cell());
                    assert(children@[k].aabb.holds(*p));
                    assert forall|j: int| 0 <= j < 8 && (#[trigger] children@[j]).aabb.holds(*p) implies j
                        == k by {
                        assert(cs[j].volume == self.aabb.octant(j));
                        assert(cs[j] == children@[j].cell());
                    }
                }
                match child_for(children, p) {
                    Some(k) => Step::Descend(k),
                    None => Step::Lost,
                }
            },
            NodeType::Leaf(e) => if e.is_equal(item) {
                Step::Absorb
            } else {
                Step::Divide
            },
            NodeType::MinLeaf(_) => Step::Append,
            NodeType::Empty => Step::Fill,
        }
    }

    /// The part with number `k` of a split node, for changing it.
    fn part_mut(&mut self, k: usize) -> (part: &mut OctreeNode<I>)
        requires
            old(self)@.content is Internal,
            k < old(self)@.children().len(),
        ensures
            part@ == old(self)@.children()[k as int],
            final(self)@ == (Cell {
                volume: old(self)@.volume,
                content: Content::Internal(old(self)@.children().update(k as int, final(part)@)),
            }),
    {
        let ghost before = *self;
        let ghost after = *final(self);
        match &mut self.node_type {
            NodeType::Internal(children) => {
                let ghost old_children = *children;
                let ghost fin_children = *final(children);
                let part = &mut children[k];
                proof {
                    let cs = before.cell().children();
                    let a = after.cell().children();
                    assert(after.node_type == NodeType::Internal(fin_children));
                    assert(a.len() == cs.len());
                    assert(a[k as int] == final(part).cell());
                    assert forall|i: int| 0 <= i < a.len() && i != k implies a[i] == cs[i] by {
                        assert(fin_children@[i] == old_children@[i]);
                    }
                    assert(a =~= cs.update(k as int, final(part).cell()));
                }
                part
            },
            _ => vstd::pervasive::unreached(),
        }
    }

    /// Puts `e` into the part that it is routed to, in a node that has just
    /// been split.
    fn settle(&mut self, e: I)
        requires
            old(self)@.content == Content::Internal(Cell::<I>::empties(old(self)@.volume)),
            old(self)@.volume.holds(e.index_point()),
        ensures
            final(self)@ == Cell::split_around(old(self)@.volume, e),
    {
        let q: Point3 = e.index();
        let found = match &self.node_type {
            NodeType::Internal(children) => {
                proof {
                    self.lemma_parts();
                    self.aabb.lemma_octants_tile(q);
                    assert(self@.children()[self.aabb.octant_of(q)].volume.holds(q));
                }
                child_for(children, &q)
            },
            _ => None,
        };
        match found {
            Some(ke) => {
                let part = self.part_mut(ke);
                part.node_type = NodeType::Leaf(e);
            },
            None => {},
        }
    }

    /// Turns a leaf into a list of its item and `item`.
    fn pack(&mut self, item: I)
        requires
            old(self)@.content is Leaf,
        ensures
            final(self)@ == (Cell {
                volume: old(self)@.volume,
                content: Content::MinLeaf(seq![old(self)@.content->Leaf_0, item]),
            }),
    {
        let mut taken = NodeType::Empty;
        std::mem::swap(&mut self.node_type, &mut taken);
        match taken {
            NodeType::Leaf(e) => {
                let mut list: Vec<I> = Vec::new();
                list.push(e);
                list.push(item);
                proof {
                    assert(list@ =~= seq![e, item]);
                }
                self.node_type = NodeType::MinLeaf(list);
            },
            _ => {},
        }
    }

    /// Stores `item` in the part of the tree that its index point is routed
    /// to. Nothing is stored, and the tree stays as it is, when the index
    /// point lies outside the node's volume or when the leaf that the item
    /// reaches takes it for the item it already holds.
    #[verifier::loop_isolation(false)]
    pub fn insert(&mut self, item: I) -> (stored: bool)
        requires
            old(self).wf(),
        ensures
            final(self)@ == old(self)@.inserted(item),
            stored == old(self)@.accepts(item),
            final(self).wf(),
            final(self)@.volume == old(self)@.volume,
            stored ==> final(self)@.items().to_multiset() == old(self)@.items().to_multiset().insert(
                item,
            ),
            stored ==> final(self)@.items().len() == old(self)@.items().len() + 1,
            !stored ==> final(self)@ == old(self)@,
            old(self)@.compact() ==> final(self)@.compact(),
    {
        let p: Point3 = item.index();
        if !self.aabb.contains(&p) {
            return false;
        }
        let ghost whole = *final(self);
        let ghost start = *self;
        proof {
            start@.lemma_put(item);
            if start@.compact() {
                start@.lemma_put_compact(item);
            }
            start@.items().to_multiset_ensures();
            start@.put(item).items().to_multiset_ensures();
        }
        let mut cur: &mut OctreeNode<I> = self;
        loop
            invariant
                cur.wf(),
                cur.aabb.holds(p),
                p == item.index_point(),
                start.aabb.holds(p),
                final(cur)@ == cur@.put(item) ==> whole@ == start@.put(item),
                cur@.absorbs(item) == start@.absorbs(item),
            decreases cur.aabb.x_side(), (if cur@.content is Internal { 0int } else { 1int }),
        {
            let ghost old_cur = *cur;
            match cur.step_for(&item, &p) {
                Step::Descend(k) => {
                    proof {
                        old_cur.aabb.lemma_octants_tile(p);
                        old_cur.aabb.lemma_octant_shorter(k as int);
                    }
                    cur = cur.part_mut(k);
                },
                Step::Lost => {
                    return false;
                },
                Step::Fill => {
                    cur.node_type = NodeType::Leaf(item);
                    return true;
                },
                Step::Append => {
                    match &mut cur.node_type {
                        NodeType::MinLeaf(list) => {
                            list.push(item);
                        },
                        _ => {},
                    }
                    return true;
                },
                Step::Absorb => {
                    return false;
                },
                Step::Divide => {
                    match cur.subdivide() {
                        Some(e) => {
                            proof {
                                Cell::lemma_split_then_put(old_cur.aabb, e, item);
                            }
                            cur.settle(e);
                        },
                        None => {
                            cur.pack(item);
                            return true;
                        },
                    }
                },
            }
        }
    }

    /// Appends to `inside`, in the order of the walk, the items of this node
    /// and of the nodes below it that `frustum` does not leave out.
    fn cull<'a>(&'a self, frustum: &I::Frustum, inside: Vec<&'a I>) -> (found: Vec<&'a I>)
        requires
            inside@.len() == 0,
        ensures
            refs(found@) == self@.visible(*frustum),
    {
        let mut inside = inside;
        let mut iter = DfsIter::new(self);
        let ghost mut seen: Seq<Cell<I>> = Seq::empty();
        let ghost sees = Cell::<I>::sees(*frustum);
        proof {
            assert(seen + iter.remaining() =~= self@.walk());
            assert(Cell::gather(seen) =~= Seq::<I>::empty());
            assert(Seq::<I>::empty().filter(sees) =~= Seq::<I>::empty()) by {
                reveal_with_fuel(Seq::filter, 1);
            }
            assert(refs(inside@) =~= Cell::gather(seen).filter(sees));
        }
        loop
            invariant
                sees == Cell::<I>::sees(*frustum),
                seen + iter.remaining() == self@.walk(),
                refs(inside@) == Cell::gather(seen).filter(sees),
            ensures
                iter.remaining().len() == 0,
                seen + iter.remaining() == self@.walk(),
                refs(inside@) == Cell::gather(seen).filter(sees),
            decreases iter.remaining().len(),
        {
            let ghost rest = iter.remaining();
            match iter.next() {
                None => {
                    break ;
                },
                Some(node) => {
                    let ghost got = Cell::gather(seen).filter(sees);
                    proof {
                        assert(seen.push(node@) + iter.remaining() =~= seen + rest);
                        assert(seen.push(node@).drop_last() =~= seen);
                        Seq::filter_distributes_over_add(
                            Cell::gather(seen),
                            node@.held(),
                            sees,
                        );
                        seen = seen.push(node@);
                    }
                    match &node.node_type {
                        NodeType::Leaf(item) => {
                            proof {
                                crate::sequences::lemma_filter_one(*item, sees);
                            }
                            if item.in_frustum(frustum) {
                                inside.push(item);
                                proof {
                                    assert(refs(inside@) =~= got + seq![*item]);
                                }
                            } else {
                                proof {
                                    assert(refs(inside@) =~= got + Seq::<I>::empty());
                                }
                            }
                        },
                        NodeType::MinLeaf(list) => {
                            let mut i: usize = 0;
                            proof {
                                assert(list@.take(0) =~= Seq::<I>::empty());
                                assert(Seq::<I>::empty().filter(sees) =~= Seq::<I>::empty()) by {
                                    reveal_with_fuel(Seq::filter, 1);
                                }
                                assert(refs(inside@) =~= got + list@.take(0).filter(sees));
                            }
                            while i < list.len()
                                invariant
                                    i <= list@.len(),
                                    sees == Cell::<I>::sees(*frustum),
                                    refs(inside@) == got + list@.take(i as int).filter(sees),
                                decreases list@.len() - i,
                            {
                                let item = &list[i];
                                proof {
                                    crate::sequences::lemma_filter_push(list@.take(i as int), *item, sees);
                                    assert(list@.take(i + 1) =~= list@.take(i as int).push(*item));
                                }
                                if item.in_frustum(frustum) {
                                    let ghost prev = refs(inside@);
                                    inside.push(item);
                                    proof {
                                        assert(refs(inside@) =~= prev.push(*item));
                                        assert(refs(inside@) =~= got + list@.take(i + 1).filter(sees));
                                    }
                                }
                                i = i + 1;
                            }
                            proof {
                                assert(list@.take(i as int) =~= list@);
                            }
                        },
                        _ => {
                            proof {
                                assert(node@.held() =~= Seq::<I>::empty());
                                assert(Seq::<I>::empty().filter(sees) =~= Seq::<I>::empty()) by {
                                    reveal_with_fuel(Seq::filter, 1);
                                }
                                assert(refs(inside@) =~= got + Seq::<I>::empty());
                            }
                        },
                    }
                },
            }
        }
        proof {
            assert(seen =~= self@.walk());
            self@.lemma_gather_walk();
        }
        inside
    }

    /// The items of this node and of the nodes below it that are not entirely
    /// outside `frustum`, in the order in which a depth-first walk meets them.
    /// Every node is visited, whether or not the frustum reaches its volume.
    pub fn frustum_culling(&self, frustum: &I::Frustum) -> (inside: Vec<&I>)
        ensures
            refs(inside@) == self@.visible(*frustum),
    {
        self.cull(frustum, Vec::new())
    }

    /// As [`OctreeNode::frustum_culling`], into a container that is given room
    /// for `expected_capacity` items from the start. Room that cannot be had
    /// is done without: the result is the same for every capacity.
    pub fn frustum_culling_cap(&self, frustum: &I::Frustum, expected_capacity: usize) -> (inside: Vec<&I>)
        ensures
            refs(inside@) == self@.visible(*frustum),
    {
        let mut inside: Vec<&I> = Vec::new();
        match inside.try_reserve(expected_capacity) {
            Ok(_) => {},
            Err(_) => {},
        }
        self.cull(frustum, inside)
    }

    /// The items of those nodes, among this one and the nodes below it,
    /// whose volume lies within `vol`, in the order of the walk.
    pub fn in_volume(&self, vol: Aabb3) -> (found: Vec<&I>)
        ensures
            refs(found@) == self@.enclosed(vol),
    {
        let mut items: Vec<&I> = Vec::new();
        let mut iter = DfsIter::new(self);
        let ghost mut seen: Seq<Cell<I>> = Seq::empty();
        let ghost lies_in = Cell::<I>::lies_in(vol);
        proof {
            assert(seen + iter.remaining() =~= self@.walk());
            assert(seen.filter(lies_in) =~= Seq::<Cell<I>>::empty()) by {
                reveal_with_fuel(Seq::filter, 1);
            }
            assert(refs(items@) =~= Cell::gather(seen.filter(lies_in)));
        }
        loop
            invariant
                lies_in == Cell::<I>::lies_in(vol),
                seen + iter.remaining() == self@.walk(),
                refs(items@) == Cell::gather(seen.filter(lies_in)),
            ensures
                iter.remaining().len() == 0,
                seen + iter.remaining() == self@.walk(),
                refs(items@) == Cell::gather(seen.filter(lies_in)),
            decreases iter.remaining().len(),
        {
            let ghost rest = iter.remaining();
            match iter.next() {
                None => {
                    break ;
                },
                Some(node) => {
                    let ghost got = Cell::gather(seen.filter(lies_in));
                    proof {
                        assert(seen.push(node@) + iter.remaining() =~= seen + rest);
                        crate::sequences::lemma_filter_push(seen, node@, lies_in);
                        assert(seen.filter(lies_in).push(node@).drop_last() =~= seen.filter(lies_in));
                        seen = seen.push(node@);
                    }
                    if vol.surrounds(&node.aabb) {
                        match &node.node_type {
                            NodeType::Leaf(item) => {
                                items.push(item);
                                proof {
                                    assert(refs(items@) =~= got + seq![*item]);
                                }
                            },
                            NodeType::MinLeaf(list) => {
                                let mut i: usize = 0;
                                proof {
                                    assert(refs(items@) =~= got + list@.take(0));
                                }
                                while i < list.len()
                                    invariant
                                        i <= list@.len(),
                                        refs(items@) == got + list@.take(i as int),
                                    decreases list@.len() - i,
                                {
                                    let ghost prev = refs(items@);
                                    items.push(&list[i]);
                                    proof {
                                        assert(refs(items@) =~= prev.push(list@[i as int]));
                                        assert(refs(items@) =~= got + list@.take(i + 1));
                                    }
                                    i = i + 1;
                                }
                                proof {
                                    assert(list@.take(i as int) =~= list@);
                                }
                            },
                            _ => {
                                proof {
                                    assert(refs(items@) =~= got + node@.held());
                                }
                            },
                        }
                    }
                },
            }
        }
        proof {
            assert(seen =~= self@.walk());
        }
        items
    }

    /// The number of items that this node and the nodes below it hold.
    pub fn members(&self) -> (member: usize)
        requires
            self@.items().len() <= usize::MAX,
        ensures
            member == self@.items().len(),
        decreases self,
    {
        match &self.node_type {
            NodeType::Internal(children) => {
                proof {
                    self.lemma_parts();
                }
                let ghost parts = self@.children();
                let mut member: usize = 0;
                let mut k: usize = 0;
                while k < children.len()
                    invariant
                        k <= children@.len(),
                        parts == self@.children(),
                        self.node_type == NodeType::Internal(*children),
                        parts.len() == children@.len(),
                        forall|j: int| 0 <= j < parts.len() ==> #[trigger] parts[j] == children@[j]@,
                        member == Cell::items_of(parts, k as nat).len(),
                        Cell::items_of(parts, parts.len()).len() <= usize::MAX,
                    decreases children@.len() - k,
                {
                    proof {
                        Cell::lemma_items_of_grows(parts, (k + 1) as nat, parts.len());
                    }
                    member = member + children[k].members();
                    k = k + 1;
                }
                member
            },
            NodeType::Leaf(_) => 1,
            NodeType::MinLeaf(list) => list.len(),
            NodeType::Empty => 0,
        }
    }

    /// Appends the listing of the leaves to `out`.
    fn list_leaves<'a>(&'a self, depth: u16, out: &mut Vec<LeafEntry<'a, I>>)
        requires
            depth + self@.depth() <= u16::MAX,
        ensures
            shown(final(out)@) == shown(old(out)@) + self@.leaf_lines(depth as int),
        decreases self,
    {
        let ghost start = shown(out@);
        match &self.node_type {
            NodeType::Internal(children) => {
                proof {
                    self.lemma_parts();
                    assert(shown(out@) =~= start + Cell::leaf_lines_of(self@.children(), 0, depth + 1));
                }
                let ghost parts = self@.children();
                let mut k: usize = 0;
                while k < children.len()
                    invariant
                        k <= children@.len(),
                        parts == self@.children(),
                        self.node_type == NodeType::Internal(*children),
                        parts.len() == children@.len(),
                        forall|j: int| 0 <= j < parts.len() ==> #[trigger] parts[j] == children@[j]@,
                        depth + 1 + Cell::depth_of(parts, parts.len()) <= u16::MAX,
                        shown(out@) == start + Cell::leaf_lines_of(parts, k as nat, depth + 1),
                    decreases children@.len() - k,
                {
                    proof {
                        Cell::lemma_depth_of_bounds(parts, parts.len(), k as int);
                    }
                    children[k].list_leaves(depth + 1, out);
                    proof {
                        assert(shown(out@) =~= start + Cell::leaf_lines_of(
                            parts,
                            (k + 1) as nat,
                            depth + 1,
                        ));
                    }
                    k = k + 1;
                }
            },
            NodeType::Leaf(item) => {
                out.push(LeafEntry::Leaf { item, level: depth });
                proof {
                    assert(shown(out@) =~= start + self@.leaf_lines(depth as int));
                }
            },
            NodeType::MinLeaf(list) => {
                out.push(LeafEntry::MinLeaf { items: list, level: depth });
                proof {
                    assert(shown(out@) =~= start + self@.leaf_lines(depth as int));
                }
            },
            NodeType::Empty => {
                proof {
                    assert(shown(out@) =~= start + self@.leaf_lines(depth as int));
                }
            },
        }
    }

    /// The listing of the leaves of this node and of the nodes below it, the
    /// parts of a split node in their order: each leaf with what it holds and
    /// with its level, which is `depth` for this node and one more with every
    /// split. The caller writes the listing out.
    pub fn print_leaf(&self, depth: u16) -> (lines: Vec<LeafEntry<I>>)
        requires
            self.wf(),
            depth <= u16::MAX - 64,
        ensures
            shown(lines@) == self@.leaf_lines(depth as int),
    {
        proof {
            self@.lemma_depth_limit();
        }
        let mut lines: Vec<LeafEntry<I>> = Vec::new();
        self.list_leaves(depth, &mut lines);
        proof {
            assert(shown(lines@) =~= self@.leaf_lines(depth as int));
        }
        lines
    }

    /// The line that a listing of volumes has for this node as a part.
    fn volume_entry(&self) -> (entry: VolumeEntry<I>)
        ensures
            entry@ == self@.volume_line(),
    {
        match &self.node_type {
            NodeType::Internal(_) => VolumeEntry::Internal(self.aabb),
            NodeType::Leaf(item) => VolumeEntry::Leaf(self.aabb, item),
            NodeType::MinLeaf(list) => VolumeEntry::MinLeaf(self.aabb, list),
            NodeType::Empty => VolumeEntry::Empty(self.aabb),
        }
    }

    /// Appends the listing of the volumes to `out`.
    fn list_volumes<'a>(&'a self, level: u32, out: &mut Vec<VolumeEntry<'a, I>>)
        requires
            level + self@.depth() <= u32::MAX,
        ensures
            shown(final(out)@) == shown(old(out)@) + self@.volume_lines(level as int),
        decreases self,
    {
        let ghost start = shown(out@);
        match &self.node_type {
            NodeType::Internal(children) => {
                proof {
                    self.lemma_parts();
                }
                let ghost parts = self@.children();
                let ghost rows = Seq::new(parts.len(), |k: int| parts[k].volume_line());
                out.push(VolumeEntry::Level(level));
                let ghost headed = start + seq![VolumeLine::<I>::Level(level as int)];
                proof {
                    assert(shown(out@) =~= headed + rows.take(0));
                }
                let mut k: usize = 0;
                while k < children.len()
                    invariant
                        k <= children@.len(),
                        parts.len() == children@.len(),
                        rows.len() == parts.len(),
                        forall|j: int| 0 <= j < parts.len() ==> #[trigger] parts[j] == children@[j]@,
                        forall|j: int| 0 <= j < parts.len() ==> #[trigger] rows[j] == parts[j].volume_line(),
                        shown(out@) == headed + rows.take(k as int),
                    decreases children@.len() - k,
                {
                    let ghost before = shown(out@);
                    out.push(children[k].volume_entry());
                    proof {
                        assert(shown(out@) =~= before.push(rows[k as int]));
                        assert(rows.take(k + 1) =~= rows.take(k as int).push(rows[k as int]));
                        assert(shown(out@) =~= headed + rows.take(k + 1));
                    }
                    k = k + 1;
                }
                let ghost listed = headed + rows;
                proof {
                    assert(rows.take(k as int) =~= rows);
                    assert(shown(out@) =~= listed + Cell::volume_lines_of(parts, 0, level + 1));
                }
                let mut k: usize = 0;
                while k < children.len()
                    invariant
                        k <= children@.len(),
                        parts == self@.children(),
                        self.node_type == NodeType::Internal(*children),
                        parts.len() == children@.len(),
                        forall|j: int| 0 <= j < parts.len() ==> #[trigger] parts[j] == children@[j]@,
                        level + 1 + Cell::depth_of(parts, parts.len()) <= u32::MAX,
                        shown(out@) == listed + Cell::volume_lines_of(parts, k as nat, level + 1),
                    decreases children@.len() - k,
                {
                    proof {
                        Cell::lemma_depth_of_bounds(parts, parts.len(), k as int);
                    }
                    children[k].list_volumes(level + 1, out);
                    proof {
                        assert(shown(out@) =~= listed + Cell::volume_lines_of(
                            parts,
                            (k + 1) as nat,
                            level + 1,
                        ));
                    }
                    k = k + 1;
                }
                proof {
                    assert(shown(out@) =~= start + self@.volume_lines(level as int));
                }
            },
            _ => {
                proof {
                    assert(shown(out@) =~= start + self@.volume_lines(level as int));
                }
            },
        }
    }

    /// The listing of the volumes below this node, level by level: for every
    /// split node a heading with its level, a line for each of its parts with
    /// the part's volume and what it holds, and then the listings of the
    /// parts in their order. The level is `level` for this node and one more
    /// with every split. The caller writes the listing out.
    pub fn print_volume_by_level(&self, level: u32) -> (lines: Vec<VolumeEntry<I>>)
        requires
            self.wf(),
            level <= u32::MAX - 64,
        ensures
            shown(lines@) == self@.volume_lines(level as int),
    {
        proof {
            self@.lemma_depth_limit();
        }
        let mut lines: Vec<VolumeEntry<I>> = Vec::new();
        self.list_volumes(level, &mut lines);
        proof {
            assert(shown(lines@) =~= self@.volume_lines(level as int));
        }
        lines
    }

    /// The number of nodes below this one.
    pub fn len(&self) -> (len: usize)
        requires
            self@.walk().len() <= usize::MAX,
        ensures
            len == self@.walk().len() - 1,
        decreases self,
    {
        match &self.node_type {
            NodeType::Internal(children) => {
                proof {
                    self.lemma_parts();
                }
                let ghost parts = self@.children();
                let mut len: usize = 0;
                let mut k: usize = 0;
                while k < children.len()
                    invariant
                        k <= children@.len(),
                        parts == self@.children(),
                        self.node_type == NodeType::Internal(*children),
                        parts.len() == children@.len(),
                        forall|j: int| 0 <= j < parts.len() ==> #[trigger] parts[j] == children@[j]@,
                        len == Cell::walk_of(parts, k as nat).len(),
                        Cell::walk_of(parts, parts.len()).len() < usize::MAX,
                    decreases children@.len() - k,
                {
                    proof {
                        Cell::lemma_walk_of_grows(parts, (k + 1) as nat, parts.len());
                    }
                    len = len + 1 + children[k].len();
                    k = k + 1;
                }
                len
            },
            _ => 0,
        }
    }

    /// The number of nodes, among this one and the nodes below it, that hold
    /// exactly one item.
    pub fn items_in_leaf(&self) -> (items: usize)
        requires
            self@.walk().len() <= usize::MAX,
        ensures
            items == self@.walk().filter(Cell::<I>::is_leaf()).len(),
    {
        let mut items: usize = 0;
        let mut iter = DfsIter::new(self);
        let ghost mut seen: Seq<Cell<I>> = Seq::empty();
        let ghost is_leaf = Cell::<I>::is_leaf();
        proof {
            assert(seen + iter.remaining() =~= self@.walk());
            assert(seen.filter(is_leaf) =~= Seq::<Cell<I>>::empty()) by {
                reveal_with_fuel(Seq::filter, 1);
            }
        }
        loop
            invariant
                is_leaf == Cell::<I>::is_leaf(),
                self@.walk().len() <= usize::MAX,
                seen + iter.remaining() == self@.walk(),
                items == seen.filter(is_leaf).len(),
            ensures
                iter.remaining().len() == 0,
                seen + iter.remaining() == self@.walk(),
                items == seen.filter(is_leaf).len(),
            decreases iter.remaining().len(),
        {
            let ghost rest = iter.remaining();
            match iter.next() {
                None => {
                    break ;
                },
                Some(node) => {
                    proof {
                        assert(seen.push(node@) + iter.remaining() =~= seen + rest);
                        crate::sequences::lemma_filter_push(seen, node@, is_leaf);
                        seen.lemma_filter_len(is_leaf);
                        seen = seen.push(node@);
                    }
                    match &node.node_type {
                        NodeType::Leaf(_) => {
                            items = items + 1;
                        },
                        _ => {},
                    }
                },
            }
        }
        proof {
            assert(seen =~= self@.walk());
        }
        items
    }

    /// The number of items in the lists of this node and of the nodes below
    /// it.
    pub fn items_in_min_leaf(&self) -> (items: usize)
        requires
            Cell::gather(self@.walk().filter(Cell::<I>::is_min_leaf())).len() <= usize::MAX,
        ensures
            items == Cell::gather(self@.walk().filter(Cell::<I>::is_min_leaf())).len(),
    {
        let mut items: usize = 0;
        let mut iter = DfsIter::new(self);
        let ghost mut seen: Seq<Cell<I>> = Seq::empty();
        let ghost is_min_leaf = Cell::<I>::is_min_leaf();
        let ghost limit = Cell::gather(self@.walk().filter(is_min_leaf)).len();
        proof {
            assert(seen + iter.remaining() =~= self@.walk());
            assert(seen.filter(is_min_leaf) =~= Seq::<Cell<I>>::empty()) by {
                reveal_with_fuel(Seq::filter, 1);
            }
        }
        loop
            invariant
                is_min_leaf == Cell::<I>::is_min_leaf(),
                limit == Cell::gather(self@.walk().filter(is_min_leaf)).len(),
                limit <= usize::MAX,
                seen + iter.remaining() == self@.walk(),
                items == Cell::gather(seen.filter(is_min_leaf)).len(),
            ensures
                iter.remaining().len() == 0,
                seen + iter.remaining() == self@.walk(),
                items == Cell::gather(seen.filter(is_min_leaf)).len(),
            decreases iter.remaining().len(),
        {
            let ghost rest = iter.remaining();
            match iter.next() {
                None => {
                    break ;
                },
                Some(node) => {
                    proof {
                        let now = seen.push(node@);
                        assert(now + iter.remaining() =~= seen + rest);
                        crate::sequences::lemma_filter_push(seen, node@, is_min_leaf);
                        assert(seen.filter(is_min_leaf).push(node@).drop_last() =~= seen.filter(
                            is_min_leaf,
                        ));
                        Seq::filter_distributes_over_add(now, iter.remaining(), is_min_leaf);
                        Cell::lemma_gather_concat(
                            now.filter(is_min_leaf),
                            iter.remaining().filter(is_min_leaf),
                        );
                        seen = now;
                    }
                    match &node.node_type {
                        NodeType::MinLeaf(list) => {
                            items = items + list.len();
                        },
                        _ => {},
                    }
                },
            }
        }
        proof {
            assert(seen =~= self@.walk());
        }
        items
    }
}

} // verus!
