//! What holds of every tree, proved over the model of its nodes.

use vstd::prelude::*;
use crate::cell::{Cell, Content};
use crate::item::OctreeItem;
use crate::volume::{Aabb3, MinVolume, Point3, Surround};

verus! {

/// An item whose index point lies outside the volume is refused, and the
/// cell stays as it is, with the number of its items.
pub proof fn lemma_outside_is_refused<I: OctreeItem>(cell: Cell<I>, item: I)
    requires
        !cell.volume.holds(item.index_point()),
    ensures
        !cell.accepts(item),
        cell.inserted(item) == cell,
        cell.inserted(item).items().len() == cell.items().len(),
{
}

/// An insertion into a well-formed cell leaves it well formed over the same
/// volume. Where the item is stored the cell holds one item more, the new
/// one; where it is not, the cell stays as it is.
pub proof fn lemma_insertion<I: OctreeItem>(cell: Cell<I>, item: I)
    requires
        cell.wf(),
    ensures
        cell.inserted(item).wf(),
        cell.inserted(item).volume == cell.volume,
        cell.accepts(item) ==> cell.inserted(item).items().to_multiset()
            == cell.items().to_multiset().insert(item),
        cell.accepts(item) ==> cell.inserted(item).items().len() == cell.items().len() + 1,
        !cell.accepts(item) ==> cell.inserted(item) == cell,
{
    if cell.volume.holds(item.index_point()) {
        cell.lemma_put(item);
        cell.items().to_multiset_ensures();
        cell.inserted(item).items().to_multiset_ensures();
    }
}

/// After any sequence of insertions into a well-formed cell, the cell holds
/// as many items more as there were insertions that stored their item.
pub proof fn lemma_members_count_stored<I: OctreeItem>(cell: Cell<I>, items: Seq<I>)
    requires
        cell.wf(),
    ensures
        cell.inserted_all(items).wf(),
        cell.inserted_all(items).volume == cell.volume,
        cell.inserted_all(items).items().len() == cell.items().len() + cell.stored_of(items),
    decreases items.len(),
{
    if items.len() > 0 {
        lemma_members_count_stored(cell, items.drop_last());
        lemma_insertion(cell.inserted_all(items.drop_last()), items.last());
    }
}

/// A tree that starts empty holds exactly as many items as there were
/// insertions that stored their item.
pub proof fn lemma_members_of_fresh_tree<I: OctreeItem>(volume: Aabb3, items: Seq<I>)
    ensures
        Cell::<I>::empty(volume).inserted_all(items).items().len() == Cell::<I>::empty(
            volume,
        ).stored_of(items),
{
    lemma_members_count_stored(Cell::<I>::empty(volume), items);
}

/// Insertions keep a well-formed cell from being split without need.
pub proof fn lemma_insertions_stay_compact<I: OctreeItem>(cell: Cell<I>, items: Seq<I>)
    requires
        cell.wf(),
        cell.compact(),
    ensures
        cell.inserted_all(items).compact(),
    decreases items.len(),
{
    if items.len() > 0 {
        lemma_insertions_stay_compact(cell, items.drop_last());
        lemma_members_count_stored(cell, items.drop_last());
        let before = cell.inserted_all(items.drop_last());
        if before.volume.holds(items.last().index_point()) {
            before.lemma_put_compact(items.last());
        }
    }
}

/// What a well-formed cell that is split no further than needed is follows
/// from how many items it holds and from its size: it is empty with no item,
/// a leaf with one, and with two or more a list at the minimum size and a
/// split cell above it.
pub proof fn lemma_content_by_population<I: OctreeItem>(cell: Cell<I>)
    requires
        cell.wf(),
        cell.compact(),
    ensures
        cell.content is Empty <==> cell.items().len() == 0,
        cell.content is Leaf <==> cell.items().len() == 1,
        cell.content is MinLeaf <==> cell.items().len() >= 2 && cell.volume.minimal(),
        cell.content is Internal <==> cell.items().len() >= 2 && !cell.volume.minimal(),
{
}

/// The eight parts of a split cell are the octants of its volume: each lies
/// within the volume, every point of the volume lies in exactly one of them,
/// and no point outside the volume lies in any.
pub proof fn lemma_parts_tile<I: OctreeItem>(cell: Cell<I>, p: Point3)
    requires
        cell.wf(),
        cell.content is Internal,
    ensures
        cell.children().len() == 8,
        forall|k: int|
            0 <= k < 8 ==> {
                &&& (#[trigger] cell.children()[k]).volume == cell.volume.octant(k)
                &&& cell.volume.encloses(&cell.children()[k].volume)
            },
        cell.volume.holds(p) <==> exists|k: int| 0 <= k < 8 && (#[trigger] cell.children()[k]).volume.holds(p),
        forall|j: int, k: int|
            0 <= j < 8 && 0 <= k < 8 && (#[trigger] cell.children()[j]).volume.holds(p) && (
            #[trigger] cell.children()[k]).volume.holds(p) ==> j == k,
{
    let cs = cell.children();
    cell.volume.lemma_octants_tile(p);
    assert forall|k: int| 0 <= k < 8 implies (#[trigger] cs[k]).volume == cell.volume.octant(k)
        && cell.volume.encloses(&cs[k].volume) by {
        cell.volume.lemma_octant_within(k);
    }
    if cell.volume.holds(p) {
        let k = cell.volume.octant_of(p);
        assert(cs[k].volume.holds(p));
    }
    assert forall|j: int, k: int|
        0 <= j < 8 && 0 <= k < 8 && (#[trigger] cs[j]).volume.holds(p) && (#[trigger] cs[k]).volume.holds(
            p,
        ) implies j == k by {
        assert(cell.volume.octant(j).holds(p));
        assert(cell.volume.octant(k).holds(p));
    }
}

/// Every cell that a walk of a well-formed cell visits is well formed, so
/// what holds of a well-formed cell holds of every cell of the tree.
pub proof fn lemma_walk_is_wf<I: OctreeItem>(cell: Cell<I>, i: int)
    requires
        cell.wf(),
        0 <= i < cell.walk().len(),
    ensures
        cell.walk()[i].wf(),
    decreases cell, 0nat,
{
    match cell.content {
        Content::Internal(cs) => {
            if i > 0 {
                lemma_walk_of_is_wf(cs, 8, i - 1);
            }
        },
        _ => {},
    }
}

/// Every cell that a walk of a row of well-formed cells visits is well
/// formed.
pub proof fn lemma_walk_of_is_wf<I: OctreeItem>(cs: Seq<Cell<I>>, n: nat, i: int)
    requires
        n <= cs.len(),
        forall|k: int| 0 <= k < n ==> (#[trigger] cs[k]).wf(),
        0 <= i < Cell::walk_of(cs, n).len(),
    ensures
        Cell::walk_of(cs, n)[i].wf(),
    decreases cs, n,
{
    if n > 0 {
        let first = cs[n - 1].walk();
        if i < first.len() {
            lemma_walk_is_wf(cs[n - 1], i);
        } else {
            lemma_walk_of_is_wf(cs, (n - 1) as nat, i - first.len());
        }
    }
}

/// A query returns an item exactly when the cell holds it and the frustum
/// does not leave it out, wherever in the tree the item is held.
pub proof fn lemma_visible_is_exact<I: OctreeItem>(cell: Cell<I>, frustum: I::Frustum, item: I)
    ensures
        cell.visible(frustum).contains(item) <==> cell.items().contains(item) && item.visible_in(
            &frustum,
        ),
{
    let sees = Cell::<I>::sees(frustum);
    let all = cell.items();
    if all.filter(sees).contains(item) {
        all.lemma_filter_contains_rev(sees, item);
        let i = choose|i: int| 0 <= i < all.filter(sees).len() && all.filter(sees)[i] == item;
        all.lemma_filter_pred(sees, i);
    }
    if all.contains(item) && item.visible_in(&frustum) {
        let i = choose|i: int| 0 <= i < all.len() && all[i] == item;
        all.lemma_filter_contains(sees, i);
    }
}

/// Two results of a query on one cell against one frustum are the same,
/// whatever room each result was given to start with.
pub proof fn lemma_capacity_changes_nothing<I: OctreeItem>(
    cell: Cell<I>,
    frustum: I::Frustum,
    plain: Seq<&I>,
    sized: Seq<&I>,
)
    requires
        crate::octreenode::refs(plain) == cell.visible(frustum),
        crate::octreenode::refs(sized) == cell.visible(frustum),
    ensures
        plain == sized,
{
    assert(crate::octreenode::refs(plain).len() == plain.len());
    assert(crate::octreenode::refs(sized).len() == sized.len());
    assert forall|i: int| 0 <= i < plain.len() implies plain[i] == sized[i] by {
        assert(crate::octreenode::refs(plain)[i] == *plain[i]);
        assert(crate::octreenode::refs(sized)[i] == *sized[i]);
    }
    assert(plain =~= sized);
}

/// The cell that a point of a well-formed cell is routed to is well formed,
/// is not split, and holds the point in its volume; and every point of that
/// volume is a point of the cell's volume.
pub proof fn lemma_target<I: OctreeItem>(cell: Cell<I>, p: Point3)
    requires
        cell.wf(),
        cell.volume.holds(p),
    ensures
        cell.target(p).wf(),
        !(cell.target(p).content is Internal),
        cell.target(p).volume.holds(p),
        forall|q: Point3| cell.target(p).volume.holds(q) ==> cell.volume.holds(q),
    decreases cell,
{
    match cell.content {
        Content::Internal(cs) => {
            let k = cell.volume.octant_of(p);
            cell.volume.lemma_octants_tile(p);
            assert(cs[k].volume == cell.volume.octant(k));
            lemma_target(cs[k], p);
            assert forall|q: Point3| cell.target(p).volume.holds(q) implies cell.volume.holds(q) by {
                cell.volume.lemma_octants_tile(q);
                assert(cell.volume.octant(k).holds(q));
            }
        },
        _ => {},
    }
}

/// Two points of one routed cell are routed to that same cell.
pub proof fn lemma_same_target<I: OctreeItem>(cell: Cell<I>, p: Point3, q: Point3)
    requires
        cell.wf(),
        cell.volume.holds(p),
        cell.target(p).volume.holds(q),
    ensures
        cell.target(q) == cell.target(p),
    decreases cell,
{
    match cell.content {
        Content::Internal(cs) => {
            let k = cell.volume.octant_of(p);
            cell.volume.lemma_octants_tile(p);
            cell.volume.lemma_octants_tile(q);
            assert(cs[k].volume == cell.volume.octant(k));
            lemma_target(cs[k], p);
            assert(cell.volume.octant(k).holds(q));
            lemma_same_target(cs[k], p, q);
        },
        _ => {},
    }
}

/// After an item has been put into a well-formed cell, its index point is
/// routed to what the cell it was routed to before has become.
pub proof fn lemma_put_routes<I: OctreeItem>(cell: Cell<I>, item: I)
    requires
        cell.wf(),
        cell.volume.holds(item.index_point()),
    ensures
        cell.put(item).target(item.index_point()) == cell.target(item.index_point()).put(item).target(
            item.index_point(),
        ),
    decreases cell,
{
    let p = item.index_point();
    match cell.content {
        Content::Internal(cs) => {
            let k = cell.volume.octant_of(p);
            cell.volume.lemma_octants_tile(p);
            assert(cs[k].volume == cell.volume.octant(k));
            lemma_put_routes(cs[k], item);
        },
        _ => {},
    }
}

/// A cell at the minimum size is never split: it takes an item that is put
/// into it besides what it holds, unless its one item absorbs the new one.
pub proof fn lemma_min_cell_takes<I: OctreeItem>(cell: Cell<I>, item: I)
    requires
        cell.wf(),
        cell.volume.minimal(),
        cell.volume.holds(item.index_point()),
    ensures
        !(cell.content is Internal),
        !(cell.put(item).content is Internal),
        cell.put(item).volume == cell.volume,
        cell.put(item).held() == if cell.absorbs(item) {
            cell.held()
        } else {
            cell.held().push(item)
        },
{
    match cell.content {
        Content::Leaf(e) => {
            if !e.same_as(&item) {
                assert(cell.put(item).held() =~= cell.held().push(item));
            }
        },
        Content::Empty => {
            assert(cell.put(item).held() =~= cell.held().push(item));
        },
        _ => {},
    }
}

/// Items whose index points all lie in one empty cell at the minimum size
/// end up together in that cell, however many they are: the cell is never
/// split, and from the second item on it holds them as one list, in the
/// order of their insertion. The first item must not absorb the second.
pub proof fn lemma_min_cell_collects<I: OctreeItem>(cell: Cell<I>, p: Point3, items: Seq<I>)
    requires
        cell.wf(),
        cell.volume.holds(p),
        cell.target(p).volume.minimal(),
        cell.target(p).content is Empty,
        forall|i: int| 0 <= i < items.len() ==> cell.target(p).volume.holds(#[trigger] items[i].index_point()),
        items.len() >= 2 ==> !items[0].same_as(&items[1]),
    ensures
        cell.inserted_all(items).wf(),
        cell.inserted_all(items).volume == cell.volume,
        cell.inserted_all(items).target(p).volume == cell.target(p).volume,
        !(cell.inserted_all(items).target(p).content is Internal),
        cell.inserted_all(items).target(p).held() == items,
        items.len() >= 2 ==> cell.inserted_all(items).target(p).content == Content::MinLeaf(items),
    decreases items.len(),
{
    lemma_target(cell, p);
    if items.len() == 0 {
        assert(cell.target(p).held() =~= items);
    } else {
        let front = items.drop_last();
        let item = items.last();
        let q = item.index_point();
        let before = cell.inserted_all(front);
        let after = cell.inserted_all(items);
        if front.len() >= 2 {
            assert(front[0] == items[0] && front[1] == items[1]);
        }
        assert forall|i: int| 0 <= i < front.len() implies cell.target(p).volume.holds(
            #[trigger] front[i].index_point(),
        ) by {
            assert(front[i] == items[i]);
        }
        lemma_min_cell_collects(cell, p, front);
        let room = before.target(p);
        lemma_target(before, p);
        assert(before.volume.holds(q));
        lemma_same_target(before, p, q);
        assert(before.target(q) == room);
        before.lemma_put(item);
        lemma_put_routes(before, item);
        lemma_min_cell_takes(room, item);
        assert(!before.absorbs(item)) by {
            if room.content is Leaf {
                assert(room.held() == seq![room.content->Leaf_0]);
                assert(front.len() == 1);
                assert(front[0] == room.content->Leaf_0);
                assert(items[0] == front[0]);
                assert(items[1] == item);
            }
        }
        assert(after == before.put(item));
        assert(room.put(item).target(q) == room.put(item));
        assert(after.target(q) == room.put(item));
        lemma_same_target(after, q, p);
        assert(after.target(p) == room.put(item));
        assert(front.push(item) =~= items);
        if items.len() >= 2 {
            match after.target(p).content {
                Content::MinLeaf(s) => {},
                Content::Leaf(e) => {
                    assert(after.target(p).held().len() == 1);
                },
                _ => {
                    assert(after.target(p).held().len() == 0);
                },
            }
        }
    }
}

/// Two different items with one index point end up, in the cell made to keep
/// them, together in one list at the minimum size.
pub proof fn lemma_separate_coincident<I: OctreeItem>(volume: Aabb3, e: I, item: I)
    requires
        volume.holds(e.index_point()),
        e.index_point() == item.index_point(),
    ensures
        Cell::separate(volume, e, item).target(e.index_point()).volume.minimal(),
        Cell::separate(volume, e, item).target(e.index_point()).content == Content::MinLeaf(
            seq![e, item],
        ),
    decreases volume.x_side(),
{
    let p = e.index_point();
    if !volume.minimal() {
        let k = volume.octant_of(p);
        volume.lemma_octants_tile(p);
        volume.lemma_octant_shorter(k);
        lemma_separate_coincident(volume.octant(k), e, item);
        let parts = Cell::<I>::empties(volume).update(k, Cell::single(volume.octant(k), e));
        let made = parts.update(k, Cell::separate(volume.octant(k), e, item));
        assert(made[k] == Cell::separate(volume.octant(k), e, item));
        assert(Cell::separate(volume, e, item).content == Content::Internal(made));
    }
}

/// Items with one and the same index point, inserted into a tree that starts
/// empty, all end up in one list in the cell of minimum size around that
/// point, in the order of their insertion, however many they are. The first
/// item must not absorb the second.
pub proof fn lemma_coincident_items_gather<I: OctreeItem>(volume: Aabb3, p: Point3, items: Seq<I>)
    requires
        volume.holds(p),
        items.len() >= 2,
        forall|i: int| 0 <= i < items.len() ==> (#[trigger] items[i]).index_point() == p,
        !items[0].same_as(&items[1]),
    ensures
        Cell::<I>::empty(volume).inserted_all(items).wf(),
        Cell::<I>::empty(volume).inserted_all(items).volume == volume,
        Cell::<I>::empty(volume).inserted_all(items).target(p).volume.minimal(),
        Cell::<I>::empty(volume).inserted_all(items).target(p).content == Content::MinLeaf(items),
    decreases items.len(),
{
    let fresh = Cell::<I>::empty(volume);
    let front = items.drop_last();
    let item = items.last();
    let before = fresh.inserted_all(front);
    let after = fresh.inserted_all(items);
    lemma_members_count_stored(fresh, front);
    lemma_members_count_stored(fresh, items);
    assert(after == before.inserted(item));
    if items.len() == 2 {
        let e = items[0];
        assert(front.drop_last().len() == 0);
        assert(front.last() == e);
        assert(fresh.inserted_all(front.drop_last()) == fresh);
        assert(before == Cell::single(volume, e));
        assert(after == Cell::separate(volume, e, item));
        lemma_separate_coincident(volume, e, item);
        assert(seq![e, item] =~= items);
    } else {
        assert(front[0] == items[0] && front[1] == items[1]);
        assert forall|i: int| 0 <= i < front.len() implies (#[trigger] front[i]).index_point() == p by {
            assert(front[i] == items[i]);
        }
        lemma_coincident_items_gather(volume, p, front);
        let room = before.target(p);
        lemma_target(before, p);
        lemma_put_routes(before, item);
        lemma_min_cell_takes(room, item);
        assert(!before.absorbs(item));
        assert(room.put(item).target(p) == room.put(item));
        assert(front.push(item) =~= items);
    }
}

/// The volume of every cell that a walk of a well-formed cell visits lies
/// within the volume of that cell.
pub proof fn lemma_walk_stays_within<I: OctreeItem>(cell: Cell<I>, i: int)
    requires
        cell.wf(),
        0 <= i < cell.walk().len(),
    ensures
        cell.volume.encloses(&cell.walk()[i].volume),
    decreases cell, 0nat,
{
    match cell.content {
        Content::Internal(cs) => {
            if i > 0 {
                assert forall|k: int| 0 <= k < 8 implies (#[trigger] cs[k]).wf() && cell.volume.encloses(
                    &cs[k].volume,
                ) by {
                    cell.volume.lemma_octant_within(k);
                }
                lemma_walk_of_stays_within(cs, 8, cell.volume, i - 1);
            }
        },
        _ => {},
    }
}

/// The volume of every cell that a walk of a row of well-formed cells within
/// `outer` visits lies within `outer`.
pub proof fn lemma_walk_of_stays_within<I: OctreeItem>(cs: Seq<Cell<I>>, n: nat, outer: Aabb3, i: int)
    requires
        n <= cs.len(),
        forall|k: int| 0 <= k < n ==> (#[trigger] cs[k]).wf() && outer.encloses(&cs[k].volume),
        0 <= i < Cell::walk_of(cs, n).len(),
    ensures
        outer.encloses(&Cell::walk_of(cs, n)[i].volume),
    decreases cs, n,
{
    if n > 0 {
        let first = cs[n - 1].walk();
        if i < first.len() {
            lemma_walk_stays_within(cs[n - 1], i);
        } else {
            lemma_walk_of_stays_within(cs, (n - 1) as nat, outer, i - first.len());
        }
    }
}

/// A query for the cells within a volume that encloses the whole cell
/// returns every item of the cell.
pub proof fn lemma_enclosing_volume_takes_all<I: OctreeItem>(cell: Cell<I>, within: Aabb3)
    requires
        cell.wf(),
        within.encloses(&cell.volume),
    ensures
        cell.enclosed(within) == cell.items(),
{
    let lies_in = Cell::<I>::lies_in(within);
    assert forall|i: int| 0 <= i < cell.walk().len() implies lies_in(#[trigger] cell.walk()[i]) by {
        lemma_walk_stays_within(cell, i);
    }
    crate::sequences::lemma_filter_all(cell.walk(), lies_in);
    cell.lemma_gather_walk();
}

} // verus!
