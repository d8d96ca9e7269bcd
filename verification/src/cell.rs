//! The mathematical model of a node: what it covers and what it holds.
//!
//! Every contract of the tree is stated over this model. A [`Cell`] is a
//! volume together with one of four contents; the functions below say which
//! items a cell holds and in what order a depth-first walk meets them, which
//! cells are well formed, and what a cell becomes when an item is put into it.

use vstd::prelude::*;
use vstd::multiset::Multiset;
use vstd::arithmetic::power2::{lemma2_to64, lemma_pow2_unfold, pow2};
use crate::item::OctreeItem;
use crate::sequences::{lemma_few_items, lemma_no_items};
use crate::volume::{Aabb3, MinVolume, Point3, Surround};

verus! {

/// What a cell holds.
pub enum Content<I> {
    /// Nothing.
    Empty,
    /// Exactly one item.
    Leaf(I),
    /// Two or more items that no further split can keep apart.
    MinLeaf(Seq<I>),
    /// Eight cells, one for each octant of the volume.
    Internal(Seq<Cell<I>>),
}

/// A volume and what it holds.
pub struct Cell<I> {
    pub volume: Aabb3,
    pub content: Content<I>,
}

/// One entry of a listing of the leaves: what a leaf holds, and how many
/// splits lie above it.
pub enum LeafLine<I> {
    /// A leaf with its one item.
    Leaf { item: I, level: int },
    /// A leaf at the minimum size with its list of items.
    MinLeaf { items: Seq<I>, level: int },
}

/// One entry of a listing of the volumes level by level.
pub enum VolumeLine<I> {
    /// The heading of a split cell: how many splits lie above its parts.
    Level(int),
    /// A part that is split itself.
    Internal(Aabb3),
    /// A part that holds one item.
    Leaf(Aabb3, I),
    /// A part that holds a list of items.
    MinLeaf(Aabb3, Seq<I>),
    /// A part that holds nothing.
    Empty(Aabb3),
}

impl<I: OctreeItem> Cell<I> {
    /// The cell over `volume` that holds nothing.
    pub open spec fn empty(volume: Aabb3) -> Cell<I> {
        Cell { volume, content: Content::Empty }
    }

    /// The cell over `volume` that holds `item` alone.
    pub open spec fn single(volume: Aabb3, item: I) -> Cell<I> {
        Cell { volume, content: Content::Leaf(item) }
    }

    /// The eight empty cells over the octants of `volume`.
    pub open spec fn empties(volume: Aabb3) -> Seq<Cell<I>> {
        Seq::new(8, |k: int| Cell::empty(volume.octant(k)))
    }

    /// The cells below this one: its eight parts, or none.
    pub open spec fn children(self) -> Seq<Cell<I>> {
        match self.content {
            Content::Internal(cs) => cs,
            _ => Seq::empty(),
        }
    }

    /// The items that the cell holds itself, not through the cells below it.
    pub open spec fn held(self) -> Seq<I> {
        match self.content {
            Content::Leaf(e) => seq![e],
            Content::MinLeaf(s) => s,
            _ => Seq::empty(),
        }
    }

    /// The items of the cell and of all cells below it, in the order in which
    /// a depth-first walk that takes the last part first meets them.
    pub open spec fn items(self) -> Seq<I>
        decreases self, 0nat,
    {
        match self.content {
            Content::Internal(cs) => Self::items_of(cs, cs.len()),
            _ => self.held(),
        }
    }

    /// The items of the first `n` cells of `cs`, those of the last cell first.
    pub open spec fn items_of(cs: Seq<Cell<I>>, n: nat) -> Seq<I>
        decreases cs, n,
    {
        if n == 0 || n > cs.len() {
            Seq::empty()
        } else {
            cs[n - 1].items() + Self::items_of(cs, (n - 1) as nat)
        }
    }

    /// The cell and all cells below it, in the order in which a depth-first
    /// walk that takes the last part first visits them.
    pub open spec fn walk(self) -> Seq<Cell<I>>
        decreases self, 0nat,
    {
        match self.content {
            Content::Internal(cs) => seq![self] + Self::walk_of(cs, cs.len()),
            _ => seq![self],
        }
    }

    /// The walks of the first `n` cells of `cs`, that of the last cell first.
    pub open spec fn walk_of(cs: Seq<Cell<I>>, n: nat) -> Seq<Cell<I>>
        decreases cs, n,
    {
        if n == 0 || n > cs.len() {
            Seq::empty()
        } else {
            cs[n - 1].walk() + Self::walk_of(cs, (n - 1) as nat)
        }
    }

    /// What the given cells hold themselves, one cell after the other.
    pub open spec fn gather(cells: Seq<Cell<I>>) -> Seq<I>
        decreases cells.len(),
    {
        if cells.len() == 0 {
            Seq::empty()
        } else {
            Self::gather(cells.drop_last()) + cells.last().held()
        }
    }

    /// How many splits lie between this cell and the deepest cell below it.
    pub open spec fn depth(self) -> nat
        decreases self, 0nat,
    {
        match self.content {
            Content::Internal(cs) => 1 + Self::depth_of(cs, cs.len()),
            _ => 0,
        }
    }

    /// The largest depth among the first `n` cells of `cs`.
    pub open spec fn depth_of(cs: Seq<Cell<I>>, n: nat) -> nat
        decreases cs, n,
    {
        if n == 0 || n > cs.len() {
            0
        } else {
            let rest = Self::depth_of(cs, (n - 1) as nat);
            if cs[n - 1].depth() > rest {
                cs[n - 1].depth()
            } else {
                rest
            }
        }
    }

    /// The listing of the leaves of the cell, the parts of a split cell in
    /// their order, where `level` splits lie above the cell.
    pub open spec fn leaf_lines(self, level: int) -> Seq<LeafLine<I>>
        decreases self, 0nat,
    {
        match self.content {
            Content::Internal(cs) => Self::leaf_lines_of(cs, cs.len(), level + 1),
            Content::Leaf(e) => seq![LeafLine::Leaf { item: e, level }],
            Content::MinLeaf(s) => seq![LeafLine::MinLeaf { items: s, level }],
            Content::Empty => Seq::empty(),
        }
    }

    /// The listings of the leaves of the first `n` cells of `cs`, one after
    /// the other.
    pub open spec fn leaf_lines_of(cs: Seq<Cell<I>>, n: nat, level: int) -> Seq<LeafLine<I>>
        decreases cs, n,
    {
        if n == 0 || n > cs.len() {
            Seq::empty()
        } else {
            Self::leaf_lines_of(cs, (n - 1) as nat, level) + cs[n - 1].leaf_lines(level)
        }
    }

    /// The line that a listing of volumes has for the cell as a part.
    pub open spec fn volume_line(self) -> VolumeLine<I> {
        match self.content {
            Content::Internal(_) => VolumeLine::Internal(self.volume),
            Content::Leaf(e) => VolumeLine::Leaf(self.volume, e),
            Content::MinLeaf(s) => VolumeLine::MinLeaf(self.volume, s),
            Content::Empty => VolumeLine::Empty(self.volume),
        }
    }

    /// The listing of the volumes below the cell: for a split cell a heading
    /// with `level`, a line for each part, and then the listings of the parts
    /// in their order, one level further down. Any other cell lists nothing.
    pub open spec fn volume_lines(self, level: int) -> Seq<VolumeLine<I>>
        decreases self, 0nat,
    {
        match self.content {
            Content::Internal(cs) => seq![VolumeLine::Level(level)] + Seq::new(
                cs.len(),
                |k: int| cs[k].volume_line(),
            ) + Self::volume_lines_of(cs, cs.len(), level + 1),
            _ => Seq::empty(),
        }
    }

    /// The listings of the volumes below the first `n` cells of `cs`, one
    /// after the other.
    pub open spec fn volume_lines_of(cs: Seq<Cell<I>>, n: nat, level: int) -> Seq<VolumeLine<I>>
        decreases cs, n,
    {
        if n == 0 || n > cs.len() {
            Seq::empty()
        } else {
            Self::volume_lines_of(cs, (n - 1) as nat, level) + cs[n - 1].volume_lines(level)
        }
    }

    /// The cell is well formed: every item lies in the volume of the cell
    /// that holds it, a list of items stands only where the volume cannot be
    /// split any more, and the eight parts of a split cell are its octants.
    pub open spec fn wf(self) -> bool
        decreases self,
    {
        match self.content {
            Content::Empty => true,
            Content::Leaf(e) => self.volume.holds(e.index_point()),
            Content::MinLeaf(s) => {
                &&& s.len() >= 2
                &&& self.volume.minimal()
                &&& forall|i: int| 0 <= i < s.len() ==> self.volume.holds(#[trigger] s[i].index_point())
            },
            Content::Internal(cs) => {
                &&& cs.len() == 8
                &&& !self.volume.minimal()
                &&& self.volume.ordered()
                &&& forall|k: int|
                    0 <= k < 8 ==> (#[trigger] cs[k]).volume == self.volume.octant(k) && cs[k].wf()
            },
        }
    }

    /// No cell is split without need: a split cell holds at least two items,
    /// and so does every split cell below it.
    pub open spec fn compact(self) -> bool
        decreases self,
    {
        match self.content {
            Content::Internal(cs) => {
                &&& self.items().len() >= 2
                &&& forall|k: int| 0 <= k < cs.len() ==> (#[trigger] cs[k]).compact()
            },
            _ => true,
        }
    }

    /// The cell that an item with index point `p` is routed to: the cell
    /// itself unless it is split, else the routed cell of the part for `p`.
    pub open spec fn target(self, p: Point3) -> Cell<I>
        decreases self,
    {
        match self.content {
            Content::Internal(cs) => {
                let k = self.volume.octant_of(p);
                if cs.len() == 8 && 0 <= k < 8 {
                    cs[k].target(p)
                } else {
                    self
                }
            },
            _ => self,
        }
    }

    /// The item is routed to a leaf whose one item takes it for the same:
    /// such an item is not stored a second time.
    pub open spec fn absorbs(self, item: I) -> bool {
        match self.target(item.index_point()).content {
            Content::Leaf(e) => e.same_as(&item),
            _ => false,
        }
    }

    /// The item is stored when it is inserted: its index point lies in the
    /// volume, and no leaf absorbs it.
    pub open spec fn accepts(self, item: I) -> bool {
        self.volume.holds(item.index_point()) && !self.absorbs(item)
    }

    /// The cell over `volume` that has just been split and keeps `e` in the
    /// octant that `e` is routed to.
    pub open spec fn split_around(volume: Aabb3, e: I) -> Cell<I> {
        let ke = volume.octant_of(e.index_point());
        Cell {
            volume,
            content: Content::Internal(
                Self::empties(volume).update(ke, Cell::single(volume.octant(ke), e)),
            ),
        }
    }

    /// The cell over `volume` that keeps two different items `e` and `item`:
    /// the volume is split until the two fall into different octants, or
    /// cannot be split any more and holds both in a list.
    pub open spec fn separate(volume: Aabb3, e: I, item: I) -> Cell<I>
        decreases volume.x_side(),
    {
        if volume.minimal() {
            Cell { volume, content: Content::MinLeaf(seq![e, item]) }
        } else {
            let ke = volume.octant_of(e.index_point());
            let k = volume.octant_of(item.index_point());
            let parts = Self::empties(volume).update(ke, Cell::single(volume.octant(ke), e));
            let part = if k == ke {
                Self::separate(volume.octant(k), e, item)
            } else {
                Cell::single(volume.octant(k), item)
            };
            Cell { volume, content: Content::Internal(parts.update(k, part)) }
        }
    }

    /// The cell after `item`, whose index point lies in the volume, has been
    /// routed to its place.
    pub open spec fn put(self, item: I) -> Cell<I>
        decreases self,
    {
        match self.content {
            Content::Empty => Cell::single(self.volume, item),
            Content::MinLeaf(s) => Cell { volume: self.volume, content: Content::MinLeaf(s.push(item)) },
            Content::Leaf(e) => if e.same_as(&item) {
                self
            } else {
                Self::separate(self.volume, e, item)
            },
            Content::Internal(cs) => {
                let k = self.volume.octant_of(item.index_point());
                if cs.len() == 8 && 0 <= k < 8 {
                    Cell { volume: self.volume, content: Content::Internal(cs.update(k, cs[k].put(item))) }
                } else {
                    self
                }
            },
        }
    }

    /// The cell after an insertion of `item`: unchanged where the item's
    /// index point lies outside the volume.
    pub open spec fn inserted(self, item: I) -> Cell<I> {
        if self.volume.holds(item.index_point()) {
            self.put(item)
        } else {
            self
        }
    }

    /// The cell after the items of `items` have been inserted one after the
    /// other, the first one first.
    pub open spec fn inserted_all(self, items: Seq<I>) -> Cell<I>
        decreases items.len(),
    {
        if items.len() == 0 {
            self
        } else {
            self.inserted_all(items.drop_last()).inserted(items.last())
        }
    }

    /// How many of these insertions store their item.
    pub open spec fn stored_of(self, items: Seq<I>) -> nat
        decreases items.len(),
    {
        if items.len() == 0 {
            0
        } else {
            let before = self.stored_of(items.drop_last());
            if self.inserted_all(items.drop_last()).accepts(items.last()) {
                before + 1
            } else {
                before
            }
        }
    }

    /// The test that a visibility query against `frustum` makes of an item.
    pub open spec fn sees(frustum: I::Frustum) -> spec_fn(I) -> bool {
        |i: I| i.visible_in(&frustum)
    }

    /// The items of the cell that are visible in `frustum`, in the order of
    /// [`Cell::items`].
    pub open spec fn visible(self, frustum: I::Frustum) -> Seq<I> {
        self.items().filter(Self::sees(frustum))
    }

    /// The test for a cell that holds exactly one item.
    pub open spec fn is_leaf() -> spec_fn(Cell<I>) -> bool {
        |c: Cell<I>| c.content is Leaf
    }

    /// The test for a cell that holds a list of items.
    pub open spec fn is_min_leaf() -> spec_fn(Cell<I>) -> bool {
        |c: Cell<I>| c.content is MinLeaf
    }

    /// The test that a query for the cells within `within` makes of a cell.
    pub open spec fn lies_in(within: Aabb3) -> spec_fn(Cell<I>) -> bool {
        |c: Cell<I>| within.encloses(&c.volume)
    }

    /// The items held by those cells of the walk whose volume `within`
    /// encloses, in the order of the walk.
    pub open spec fn enclosed(self, within: Aabb3) -> Seq<I> {
        Self::gather(self.walk().filter(Self::lies_in(within)))
    }

    /// Putting an item into a leaf above the minimum size that holds a
    /// different item comes to splitting the leaf around its item first.
    pub proof fn lemma_split_then_put(volume: Aabb3, e: I, item: I)
        requires
            volume.holds(e.index_point()),
            volume.holds(item.index_point()),
            !volume.minimal(),
            !e.same_as(&item),
        ensures
            Self::split_around(volume, e).wf(),
            Self::split_around(volume, e).put(item) == Cell::single(volume, e).put(item),
            !Self::split_around(volume, e).absorbs(item),
    {
        let ke = volume.octant_of(e.index_point());
        let k = volume.octant_of(item.index_point());
        let parts = Self::empties(volume).update(ke, Cell::single(volume.octant(ke), e));
        volume.lemma_octants_tile(e.index_point());
        volume.lemma_octants_tile(item.index_point());
        assert(parts[k].target(item.index_point()) == parts[k]);
        assert(parts[k].put(item) == if k == ke {
            Self::separate(volume.octant(k), e, item)
        } else {
            Cell::single(volume.octant(k), item)
        });
        assert forall|j: int| 0 <= j < 8 implies (#[trigger] parts[j]).volume == volume.octant(j)
            && parts[j].wf() by {}
    }
}

impl<I: OctreeItem> Cell<I> {
    /// The walk of the first `n` cells does not look at the cells after them.
    pub proof fn lemma_walk_of_prefix(a: Seq<Cell<I>>, b: Seq<Cell<I>>, n: nat)
        requires
            n <= a.len(),
            n <= b.len(),
            forall|i: int| 0 <= i < n ==> a[i] == b[i],
        ensures
            Self::walk_of(a, n) == Self::walk_of(b, n),
        decreases n,
    {
        if n > 0 {
            Self::lemma_walk_of_prefix(a, b, (n - 1) as nat);
        }
    }

    /// A walk of two rows of cells visits the second row first.
    pub proof fn lemma_walk_of_concat(a: Seq<Cell<I>>, b: Seq<Cell<I>>)
        ensures
            Self::walk_of(a + b, (a + b).len()) == Self::walk_of(b, b.len()) + Self::walk_of(
                a,
                a.len(),
            ),
        decreases b.len(),
    {
        if b.len() == 0 {
            assert(a + b =~= a);
            assert(Self::walk_of(b, b.len()) + Self::walk_of(a, a.len()) =~= Self::walk_of(
                a,
                a.len(),
            ));
        } else {
            let n = (a + b).len();
            let front = b.drop_last();
            Self::lemma_walk_of_concat(a, front);
            Self::lemma_walk_of_prefix(a + b, a + front, (n - 1) as nat);
            Self::lemma_walk_of_prefix(b, front, front.len());
            assert((a + b)[n - 1] == b.last());
            assert(Self::walk_of(a + b, n) =~= b.last().walk() + (Self::walk_of(front, front.len())
                + Self::walk_of(a, a.len())));
            assert(Self::walk_of(b, b.len()) =~= b.last().walk() + Self::walk_of(
                front,
                front.len(),
            ));
            assert(Self::walk_of(a + b, n) =~= Self::walk_of(b, b.len()) + Self::walk_of(
                a,
                a.len(),
            ));
        }
    }

    /// What two rows of cells hold is what the first holds, then what the
    /// second holds.
    pub proof fn lemma_gather_concat(a: Seq<Cell<I>>, b: Seq<Cell<I>>)
        ensures
            Self::gather(a + b) == Self::gather(a) + Self::gather(b),
        decreases b.len(),
    {
        if b.len() == 0 {
            assert(a + b =~= a);
            assert(Self::gather(a) + Self::gather(b) =~= Self::gather(a));
        } else {
            Self::lemma_gather_concat(a, b.drop_last());
            assert((a + b).drop_last() =~= a + b.drop_last());
            assert((a + b).last() == b.last());
            assert(Self::gather(a + b) =~= Self::gather(a) + (Self::gather(b.drop_last())
                + b.last().held()));
        }
    }

    /// What one cell alone holds.
    pub proof fn lemma_gather_one(c: Cell<I>)
        ensures
            Self::gather(seq![c]) == c.held(),
    {
        assert(seq![c].drop_last() =~= Seq::<Cell<I>>::empty());
        assert(Self::gather(seq![c].drop_last()) =~= Seq::<I>::empty());
        assert(Self::gather(seq![c]) =~= c.held());
    }

    /// The items of a cell are what the cells of its walk hold, in that order.
    pub proof fn lemma_gather_walk(self)
        ensures
            Self::gather(self.walk()) == self.items(),
        decreases self, 0nat,
    {
        Self::lemma_gather_one(self);
        match self.content {
            Content::Internal(cs) => {
                Self::lemma_gather_walk_of(cs, cs.len());
                Self::lemma_gather_concat(seq![self], Self::walk_of(cs, cs.len()));
                assert(Self::gather(self.walk()) =~= self.items());
            },
            _ => {},
        }
    }

    /// The items of a row of cells are what the cells of its walk hold.
    pub proof fn lemma_gather_walk_of(cs: Seq<Cell<I>>, n: nat)
        requires
            n <= cs.len(),
        ensures
            Self::gather(Self::walk_of(cs, n)) == Self::items_of(cs, n),
        decreases cs, n,
    {
        if n > 0 {
            cs[n - 1].lemma_gather_walk();
            Self::lemma_gather_walk_of(cs, (n - 1) as nat);
            Self::lemma_gather_concat(cs[n - 1].walk(), Self::walk_of(cs, (n - 1) as nat));
        }
    }

    /// The walk of the first cells of a row is no longer than that of a
    /// longer run of them.
    pub proof fn lemma_walk_of_grows(cs: Seq<Cell<I>>, m: nat, n: nat)
        requires
            m <= n <= cs.len(),
        ensures
            Self::walk_of(cs, m).len() <= Self::walk_of(cs, n).len(),
        decreases n,
    {
        if m < n {
            Self::lemma_walk_of_grows(cs, m, (n - 1) as nat);
        }
    }

    /// The first cells of a row hold no more items than a longer run of them.
    pub proof fn lemma_items_of_grows(cs: Seq<Cell<I>>, m: nat, n: nat)
        requires
            m <= n <= cs.len(),
        ensures
            Self::items_of(cs, m).len() <= Self::items_of(cs, n).len(),
        decreases n,
    {
        if m < n {
            Self::lemma_items_of_grows(cs, m, (n - 1) as nat);
        }
    }

    /// No cell of a row is deeper than the row.
    pub proof fn lemma_depth_of_bounds(cs: Seq<Cell<I>>, n: nat, j: int)
        requires
            0 <= j < n <= cs.len(),
        ensures
            cs[j].depth() <= Self::depth_of(cs, n),
        decreases n,
    {
        if j < n - 1 {
            Self::lemma_depth_of_bounds(cs, (n - 1) as nat, j);
        }
    }

    /// A row is as deep as one of its cells, unless it is empty.
    pub proof fn lemma_depth_of_reached(cs: Seq<Cell<I>>, n: nat)
        requires
            0 < n <= cs.len(),
        ensures
            exists|j: int| 0 <= j < n && #[trigger] cs[j].depth() == Self::depth_of(cs, n),
        decreases n,
    {
        if n > 1 {
            Self::lemma_depth_of_reached(cs, (n - 1) as nat);
            let rest = Self::depth_of(cs, (n - 1) as nat);
            if cs[n - 1].depth() > rest {
                assert(cs[n - 1].depth() == Self::depth_of(cs, n));
            } else {
                let j = choose|j: int| 0 <= j < n - 1 && #[trigger] cs[j].depth() == rest;
                assert(cs[j].depth() == Self::depth_of(cs, n));
            }
        } else {
            assert(Self::depth_of(cs, 0) == 0);
            assert(cs[0].depth() == Self::depth_of(cs, n));
        }
    }

    /// A well-formed cell whose side along x is at most the `n`-th power of
    /// two has at most `n` splits below it: every split halves the side.
    pub proof fn lemma_depth_within(self, n: nat)
        requires
            self.wf(),
            self.volume.x_side() <= pow2(n),
        ensures
            self.depth() <= n,
        decreases self,
    {
        match self.content {
            Content::Internal(cs) => {
                lemma2_to64();
                if n > 0 {
                    lemma_pow2_unfold(n);
                    assert forall|j: int| 0 <= j < 8 implies (#[trigger] cs[j]).depth() <= n - 1 by {
                        self.volume.lemma_octant_half(j);
                        assert(cs[j].volume == self.volume.octant(j));
                        cs[j].lemma_depth_within((n - 1) as nat);
                    }
                    Self::lemma_depth_of_reached(cs, 8);
                }
            },
            _ => {},
        }
    }

    /// No well-formed cell has more than 64 splits below it.
    pub proof fn lemma_depth_limit(self)
        requires
            self.wf(),
        ensures
            self.depth() <= 64,
    {
        lemma2_to64();
        self.lemma_depth_within(64);
    }

    /// A row of empty cells holds no item.
    pub proof fn lemma_items_of_empties(volume: Aabb3, n: nat)
        requires
            n <= 8,
        ensures
            Self::items_of(Self::empties(volume), n) == Seq::<I>::empty(),
        decreases n,
    {
        if n > 0 {
            Self::lemma_items_of_empties(volume, (n - 1) as nat);
            assert(Self::empties(volume)[n - 1].items() =~= Seq::<I>::empty());
            assert(Self::items_of(Self::empties(volume), n) =~= Seq::<I>::empty());
        }
    }

    /// Replacing one cell of a row by a cell that holds `extra` besides what
    /// the old one held adds `extra` to what the row holds.
    pub proof fn lemma_items_of_update(
        cs: Seq<Cell<I>>,
        j: int,
        part: Cell<I>,
        n: nat,
        extra: Multiset<I>,
    )
        requires
            0 <= j < cs.len(),
            n <= cs.len(),
            part.items().to_multiset() == cs[j].items().to_multiset().add(extra),
        ensures
            Self::items_of(cs.update(j, part), n).to_multiset() == if j < n {
                Self::items_of(cs, n).to_multiset().add(extra)
            } else {
                Self::items_of(cs, n).to_multiset()
            },
        decreases n,
    {
        broadcast use vstd::seq_lib::lemma_multiset_commutative;

        if n > 0 {
            Self::lemma_items_of_update(cs, j, part, (n - 1) as nat, extra);
            let new = cs.update(j, part);
            let rest_new = Self::items_of(new, (n - 1) as nat);
            let rest_old = Self::items_of(cs, (n - 1) as nat);
            assert(Self::items_of(new, n) == new[n - 1].items() + rest_new);
            assert(Self::items_of(cs, n) == cs[n - 1].items() + rest_old);
            if j == n - 1 {
                assert(Self::items_of(new, n).to_multiset() =~= Self::items_of(cs, n).to_multiset().add(
                    extra,
                ));
            } else if j < n {
                assert(Self::items_of(new, n).to_multiset() =~= Self::items_of(cs, n).to_multiset().add(
                    extra,
                ));
            } else {
                assert(Self::items_of(new, n).to_multiset() =~= Self::items_of(cs, n).to_multiset());
            }
        }
    }

    /// A cell that has just been split around `e` is well formed and holds
    /// `e` alone.
    pub proof fn lemma_split_around(volume: Aabb3, e: I)
        requires
            volume.holds(e.index_point()),
            !volume.minimal(),
        ensures
            Self::split_around(volume, e).wf(),
            Self::split_around(volume, e).items().to_multiset() == Multiset::<I>::empty().insert(e),
    {
        let ke = volume.octant_of(e.index_point());
        let parts = Self::empties(volume).update(ke, Cell::single(volume.octant(ke), e));
        volume.lemma_octants_tile(e.index_point());
        assert forall|j: int| 0 <= j < 8 implies (#[trigger] parts[j]).volume == volume.octant(j)
            && parts[j].wf() by {}
        Self::lemma_items_of_empties(volume, 8);
        lemma_no_items::<I>();
        lemma_few_items::<I>(e, e);
        let extra = Multiset::<I>::empty().insert(e);
        assert(Self::empties(volume)[ke].items() =~= Seq::<I>::empty());
        assert(Cell::single(volume.octant(ke), e).items() =~= seq![e]);
        assert(Cell::single(volume.octant(ke), e).items().to_multiset() =~= Self::empties(
            volume,
        )[ke].items().to_multiset().add(extra));
        Self::lemma_items_of_update(
            Self::empties(volume),
            ke,
            Cell::single(volume.octant(ke), e),
            8,
            extra,
        );
        assert(Self::split_around(volume, e).items().to_multiset() =~= extra);
    }

    /// The cell that keeps two items apart is well formed, covers the volume
    /// it was made for, and holds these two items and no other.
    pub proof fn lemma_separate(volume: Aabb3, e: I, item: I)
        requires
            volume.holds(e.index_point()),
            volume.holds(item.index_point()),
        ensures
            Self::separate(volume, e, item).wf(),
            Self::separate(volume, e, item).volume == volume,
            Self::separate(volume, e, item).items().to_multiset() == Multiset::<I>::empty().insert(
                e,
            ).insert(item),
        decreases volume.x_side(),
    {
        let both = Multiset::<I>::empty().insert(e).insert(item);
        lemma_no_items::<I>();
        lemma_few_items::<I>(e, item);
        lemma_few_items::<I>(item, item);
        if volume.minimal() {
            assert(Self::separate(volume, e, item).items() == seq![e, item]);
        } else {
            let ke = volume.octant_of(e.index_point());
            let k = volume.octant_of(item.index_point());
            volume.lemma_octants_tile(e.index_point());
            volume.lemma_octants_tile(item.index_point());
            volume.lemma_octant_shorter(k);
            Self::lemma_split_around(volume, e);
            let parts = Self::empties(volume).update(ke, Cell::single(volume.octant(ke), e));
            let part = if k == ke {
                Self::separate(volume.octant(k), e, item)
            } else {
                Cell::single(volume.octant(k), item)
            };
            let extra = Multiset::<I>::empty().insert(item);
            if k == ke {
                Self::lemma_separate(volume.octant(k), e, item);
                assert(parts[k].items() =~= seq![e]);
                assert(part.items().to_multiset() =~= parts[k].items().to_multiset().add(extra));
            } else {
                assert(parts[k].items() =~= Seq::<I>::empty());
                assert(part.items() =~= seq![item]);
                assert(part.items().to_multiset() =~= parts[k].items().to_multiset().add(extra));
            }
            Self::lemma_items_of_update(parts, k, part, 8, extra);
            let made = parts.update(k, part);
            assert forall|j: int| 0 <= j < 8 implies (#[trigger] made[j]).volume == volume.octant(j)
                && made[j].wf() by {
                assert(parts[j].volume == volume.octant(j));
                assert(parts[j].wf());
            }
            assert(Self::separate(volume, e, item).items().to_multiset() =~= both);
        }
    }

    /// Putting an item into a well-formed cell that covers its index point
    /// keeps the cell well formed and its volume as it was. The cell stays
    /// as it is where a leaf absorbs the item; otherwise it holds the item
    /// besides what it held before.
    pub proof fn lemma_put(self, item: I)
        requires
            self.wf(),
            self.volume.holds(item.index_point()),
        ensures
            self.put(item).wf(),
            self.put(item).volume == self.volume,
            self.absorbs(item) ==> self.put(item) == self,
            !self.absorbs(item) ==> self.put(item).items().to_multiset()
                == self.items().to_multiset().insert(item),
        decreases self,
    {
        let p = item.index_point();
        lemma_no_items::<I>();
        lemma_few_items::<I>(item, item);
        match self.content {
            Content::Empty => {
                assert(self.put(item).items() =~= seq![item]);
                assert(self.items() =~= Seq::<I>::empty());
                assert(self.put(item).items().to_multiset() =~= self.items().to_multiset().insert(
                    item,
                ));
            },
            Content::MinLeaf(s) => {
                assert(self.put(item).items() == s.push(item));
                vstd::seq_lib::to_multiset_build(s, item);
                assert forall|i: int| 0 <= i < s.push(item).len() implies self.volume.holds(
                    #[trigger] s.push(item)[i].index_point(),
                ) by {
                    if i < s.len() {
                        assert(s.push(item)[i] == s[i]);
                    }
                }
            },
            Content::Leaf(e) => {
                if !e.same_as(&item) {
                    Self::lemma_separate(self.volume, e, item);
                    lemma_few_items::<I>(e, item);
                    assert(self.items() =~= seq![e]);
                }
            },
            Content::Internal(cs) => {
                let k = self.volume.octant_of(p);
                self.volume.lemma_octants_tile(p);
                assert(cs[k].volume == self.volume.octant(k));
                cs[k].lemma_put(item);
                assert(self.target(p) == cs[k].target(p));
                let made = cs.update(k, cs[k].put(item));
                assert forall|j: int| 0 <= j < 8 implies (#[trigger] made[j]).volume
                    == self.volume.octant(j) && made[j].wf() by {
                    assert(cs[j].volume == self.volume.octant(j));
                    assert(cs[j].wf());
                }
                if self.absorbs(item) {
                    assert(made =~= cs);
                } else {
                    let extra = Multiset::<I>::empty().insert(item);
                    assert(cs[k].put(item).items().to_multiset() =~= cs[k].items().to_multiset().add(
                        extra,
                    ));
                    Self::lemma_items_of_update(cs, k, cs[k].put(item), 8, extra);
                    assert(self.put(item).items().to_multiset() =~= self.items().to_multiset().insert(
                        item,
                    ));
                }
            },
        }
    }
}

impl<I: OctreeItem> Cell<I> {
    /// The cell that keeps two items apart is split no further than needed.
    pub proof fn lemma_separate_compact(volume: Aabb3, e: I, item: I)
        requires
            volume.holds(e.index_point()),
            volume.holds(item.index_point()),
        ensures
            Self::separate(volume, e, item).compact(),
        decreases volume.x_side(),
    {
        if !volume.minimal() {
            let ke = volume.octant_of(e.index_point());
            let k = volume.octant_of(item.index_point());
            volume.lemma_octants_tile(e.index_point());
            volume.lemma_octants_tile(item.index_point());
            volume.lemma_octant_shorter(k);
            Self::lemma_separate(volume, e, item);
            Self::separate(volume, e, item).items().to_multiset_ensures();
            if k == ke {
                Self::lemma_separate_compact(volume.octant(k), e, item);
            }
            let made = Self::separate(volume, e, item).children();
            assert forall|j: int| 0 <= j < made.len() implies (#[trigger] made[j]).compact() by {}
        }
    }

    /// Putting an item into a well-formed cell that is split no further than
    /// needed leaves it so.
    pub proof fn lemma_put_compact(self, item: I)
        requires
            self.wf(),
            self.compact(),
            self.volume.holds(item.index_point()),
        ensures
            self.put(item).compact(),
        decreases self,
    {
        match self.content {
            Content::Leaf(e) => {
                if !e.same_as(&item) {
                    Self::lemma_separate_compact(self.volume, e, item);
                }
            },
            Content::Internal(cs) => {
                let p = item.index_point();
                let k = self.volume.octant_of(p);
                self.volume.lemma_octants_tile(p);
                assert(cs[k].volume == self.volume.octant(k));
                cs[k].lemma_put_compact(item);
                self.lemma_put(item);
                self.items().to_multiset_ensures();
                self.put(item).items().to_multiset_ensures();
                let made = cs.update(k, cs[k].put(item));
                assert forall|j: int| 0 <= j < made.len() implies (#[trigger] made[j]).compact() by {
                    if j != k {
                        assert(made[j] == cs[j]);
                    }
                }
            },
            _ => {},
        }
    }
}

} // verus!
