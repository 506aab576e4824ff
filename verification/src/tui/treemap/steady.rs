//! What holds of a map whichever way its items are handed over, and of its tiles by themselves.

use vstd::prelude::*;
use vstd::seq_lib::{group_to_multiset_ensures, lemma_sorted_unique};

use crate::dup::arranged;
use crate::model::NodeId;
use crate::order::alike::{lemma_order_exists, order_of};
use crate::order::{lemma_order_distinct, Ranked};
use crate::tui::treemap::{drawable, largest_first, map_of, Block, Free, Tile};

verus! {

/// Where an index goes once the item at `m` has been taken out.
spec fn closed_up(p: Seq<int>, m: int) -> Seq<int> {
    p.map_values(
        |i: int|
            if i < m {
                i
            } else {
                i - 1
            },
    )
}

/// Putting items in another order changes none of them.
proof fn lemma_arranged(list: Seq<Block>, p: Seq<int>)
    requires
        p.len() == list.len(),
        p.no_duplicates(),
        forall|i: int| 0 <= i < p.len() ==> 0 <= #[trigger] p[i] < list.len(),
    ensures
        arranged(list, p).to_multiset() == list.to_multiset(),
    decreases list.len(),
{
    broadcast use group_to_multiset_ensures;
    broadcast use vstd::multiset::group_multiset_axioms;

    let all = arranged(list, p);
    if list.len() == 0 {
        assert(all =~= list);
    } else {
        let n = p.len() - 1;
        let m = p[n];
        let less = list.remove(m);
        let q = closed_up(p.drop_last(), m);
        assert forall|i: int| 0 <= i < q.len() implies 0 <= #[trigger] q[i] < less.len() by {
            assert(p[i] != p[n]);
            assert(0 <= p[i] < list.len());
        }
        assert forall|i: int, j: int| 0 <= i < q.len() && 0 <= j < q.len() && i != j implies q[i]
            != q[j] by {
            assert(p[i] != p[j] && p[i] != p[n] && p[j] != p[n]);
        }
        lemma_arranged(less, q);
        assert(arranged(less, q) =~= all.drop_last()) by {
            assert forall|i: int| 0 <= i < q.len() implies less[#[trigger] q[i]] == list[p[i]] by {
                assert(p[i] != p[n]);
                assert(0 <= p[i] < list.len());
            }
        }
        assert(all =~= all.drop_last().push(list[m]));
        assert(less.to_multiset() =~= list.to_multiset().remove(list[m]));
        assert(list.contains(list[m]));
        assert(list.to_multiset().count(list[m]) > 0);
        assert(less.to_multiset().insert(list[m]) =~= list.to_multiset());
    }
}

spec fn by_rank() -> spec_fn(Block, Block) -> bool {
    |a: Block, b: Block| a.at_most(&b)
}

/// What is to be drawn depends on what there is, and not on the order it came in.
proof fn lemma_largest_first(items: Seq<(NodeId, u64)>)
    ensures
        largest_first(items).to_multiset() == drawable(items, items.len() as int).to_multiset(),
        vstd::relations::sorted_by(largest_first(items), by_rank()),
{
    let list = drawable(items, items.len() as int);
    let p = order_of(list);
    lemma_order_exists(list);
    lemma_order_distinct(list, p);
    lemma_arranged(list, p);
    let sorted = largest_first(items);
    assert forall|i: int, j: int| 0 <= i < j < sorted.len() implies #[trigger] by_rank()(
        sorted[i],
        sorted[j],
    ) by {
        assert(crate::order::comes_first(list, p[i], p[j]));
    }
}

/// A map does not flicker: the same items give the same tiles in the same order, however the items
/// are ordered, and items without a size make no difference.
pub proof fn law_the_order_of_items_does_not_matter(
    items: Seq<(NodeId, u64)>,
    others: Seq<(NodeId, u64)>,
    free: Free,
)
    requires
        drawable(items, items.len() as int).to_multiset() == drawable(
            others,
            others.len() as int,
        ).to_multiset(),
    ensures
        map_of(items, free) == map_of(others, free),
{
    lemma_largest_first(items);
    lemma_largest_first(others);
    let leq = by_rank();
    assert(vstd::relations::total_ordering(leq)) by {
        assert forall|x: Block, y: Block| #[trigger] leq(x, y) && #[trigger] leq(
            y,
            x,
        ) implies x == y by {}
        assert forall|x: Block, y: Block, z: Block| #[trigger] leq(x, y) && #[trigger] leq(
            y,
            z,
        ) implies leq(x, z) by {
            Block::transitive(&x, &y, &z);
        }
    }
    lemma_sorted_unique(largest_first(items), largest_first(others), leq);
}

/// The cells of a rectangle.
pub open spec fn cells_at(x: int, y: int, width: int, height: int) -> Set<(int, int)> {
    Set::new(|c: (int, int)| x <= c.0 < x + width && y <= c.1 < y + height)
}

proof fn lemma_column(x: int, y: int, height: nat)
    ensures
        cells_at(x, y, 1, height as int).finite(),
        cells_at(x, y, 1, height as int).len() == height,
    decreases height,
{
    let all = cells_at(x, y, 1, height as int);
    if height == 0 {
        assert(all =~= Set::<(int, int)>::empty());
    } else {
        let less = cells_at(x, y, 1, height - 1);
        lemma_column(x, y, (height - 1) as nat);
        assert(all =~= less.insert((x, y + height - 1)));
    }
}

proof fn lemma_cells(x: int, y: int, width: nat, height: nat)
    ensures
        cells_at(x, y, width as int, height as int).finite(),
        cells_at(x, y, width as int, height as int).len() == width * height,
    decreases width,
{
    let all = cells_at(x, y, width as int, height as int);
    if width == 0 {
        assert(all =~= Set::<(int, int)>::empty());
        assert(0 * height == 0) by (nonlinear_arith);
    } else {
        let less = cells_at(x, y, width - 1, height as int);
        let last = cells_at(x + width - 1, y, 1, height as int);
        lemma_cells(x, y, (width - 1) as nat, height);
        lemma_column(x + width - 1, y, height);
        assert(all =~= less.union(last));
        assert(less.disjoint(last));
        vstd::set_lib::lemma_set_disjoint_lens(less, last);
        assert((width - 1) * height + height == width * height) by (nonlinear_arith);
    }
}

/// The area of a tile is the number of cells in it; its first cell is one of them, and the cells
/// just past its sides are not.
pub proof fn law_area_counts_the_cells(tile: Tile)
    ensures
        cells_at(
            tile.x as int,
            tile.y as int,
            tile.width as int,
            tile.height as int,
        ).len() == tile.width * tile.height,
        forall|x: int, y: int| #[trigger]
            tile.covers(x, y) == cells_at(
                tile.x as int,
                tile.y as int,
                tile.width as int,
                tile.height as int,
            ).contains((x, y)),
        tile.width > 0 && tile.height > 0 ==> tile.covers(tile.x as int, tile.y as int),
        !tile.covers(tile.x + tile.width, tile.y as int),
        !tile.covers(tile.x as int, tile.y + tile.height),
{
    lemma_cells(tile.x as int, tile.y as int, tile.width as nat, tile.height as nat);
}

} // verus!
