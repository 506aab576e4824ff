//! How a map is shared out, told off the sizes of what is drawn.

use vstd::prelude::*;

use crate::model::NodeId;
use crate::order::alike::{lemma_order_exists, order_of};
use crate::order::{comes_first, is_order, lemma_order_complete};
use crate::tui::treemap::{
    cut, drawable, gets_worse, largest_first, row_end, row_tile, row_tiles, rounded, sum,
    thickness, too_long, too_thick, Block, Free,
};

verus! {

/// Whatever takes up anything is drawn, as large as it is, and nothing else; what is larger comes
/// first, and of what is as large what has the lower number.
pub proof fn law_what_is_drawn(items: Seq<(NodeId, u64)>)
    ensures
        forall|k: int|
            0 <= k < items.len() && (#[trigger] items[k]).1 > 0 ==> largest_first(items).contains(
                Block { id: items[k].0, size: items[k].1 },
            ),
        forall|j: int|
            0 <= j < largest_first(items).len() ==> items.contains(
                ((#[trigger] largest_first(items)[j]).id, largest_first(items)[j].size),
            ) && largest_first(items)[j].size > 0,
        forall|i: int, j: int|
            0 <= i < j < largest_first(items).len() ==> (#[trigger] largest_first(items)[i]).size
                >= (#[trigger] largest_first(items)[j]).size && (largest_first(items)[i].size
                == largest_first(items)[j].size ==> largest_first(items)[i].id <= largest_first(
                items,
            )[j].id),
{
    let n = items.len() as int;
    let list = drawable(items, n);
    lemma_drawable(items, n);
    lemma_order_exists(list);
    let p = order_of(list);
    assert(is_order(list, p));
    let sorted = largest_first(items);
    assert forall|k: int| 0 <= k < items.len() && (#[trigger] items[k]).1 > 0 implies sorted.contains(
        Block { id: items[k].0, size: items[k].1 },
    ) by {
        let b = Block { id: items[k].0, size: items[k].1 };
        assert(list.contains(b));
        let m = choose|m: int| 0 <= m < list.len() && list[m] == b;
        lemma_order_complete(list, p, m);
        let j = choose|j: int| 0 <= j < p.len() && p[j] == m;
        assert(sorted[j] == b);
    }
    assert forall|j: int| 0 <= j < sorted.len() implies items.contains(
        ((#[trigger] sorted[j]).id, sorted[j].size),
    ) && sorted[j].size > 0 by {
        assert(sorted[j] == list[p[j]]);
    }
    assert forall|i: int, j: int| 0 <= i < j < sorted.len() implies (#[trigger] sorted[i]).size >= (
    #[trigger] sorted[j]).size && (sorted[i].size == sorted[j].size ==> sorted[i].id
        <= sorted[j].id) by {
        assert(comes_first(list, p[i], p[j]));
        assert(sorted[i] == list[p[i]] && sorted[j] == list[p[j]]);
    }
}

proof fn lemma_drawable(items: Seq<(NodeId, u64)>, n: int)
    requires
        0 <= n <= items.len(),
    ensures
        forall|k: int|
            0 <= k < n && (#[trigger] items[k]).1 > 0 ==> drawable(items, n).contains(
                Block { id: items[k].0, size: items[k].1 },
            ),
        forall|j: int|
            0 <= j < drawable(items, n).len() ==> items.contains(
                ((#[trigger] drawable(items, n)[j]).id, drawable(items, n)[j].size),
            ) && drawable(items, n)[j].size > 0,
    decreases n,
{
    if n > 0 {
        lemma_drawable(items, n - 1);
        let was = drawable(items, n - 1);
        let now = drawable(items, n);
        assert forall|k: int| 0 <= k < n && (#[trigger] items[k]).1 > 0 implies now.contains(
            Block { id: items[k].0, size: items[k].1 },
        ) by {
            let b = Block { id: items[k].0, size: items[k].1 };
            if k < n - 1 {
                assert(was.contains(b));
                let m = choose|m: int| 0 <= m < was.len() && was[m] == b;
                assert(now[m] == b);
            } else {
                assert(now[now.len() - 1] == b);
            }
        }
        assert forall|j: int| 0 <= j < now.len() implies items.contains(
            ((#[trigger] now[j]).id, now[j].size),
        ) && now[j].size > 0 by {
            if j < was.len() {
                assert(now[j] == was[j]);
            } else {
                assert(items[n - 1] == (now[j].id, now[j].size));
            }
        }
    }
}

/// A quotient is rounded to the nearest whole number.
pub proof fn law_lengths_are_rounded_to_the_nearest(a: nat, b: nat)
    requires
        b > 0,
    ensures
        2 * (rounded(a, b) * b) <= 2 * a + b,
        2 * a < 2 * (rounded(a, b) * b) + b,
{
    let x = (2 * a + b) as int;
    let d = (2 * b) as int;
    let q = x / d;
    vstd::arithmetic::div_mod::lemma_fundamental_div_mod(x, d);
    assert(d * q == 2 * (q * b)) by (nonlinear_arith)
        requires
            d == 2 * b,
    ;
}

/// Along a row each item ends where what it and those before it take up, out of all in the row, comes
/// to of the row's length, to the nearest cell.
pub proof fn law_each_item_gets_its_share_of_a_row(
    list: Seq<Block>,
    i: int,
    e: int,
    k: int,
    span: nat,
)
    requires
        sum(list, i, e) > 0,
    ensures
        2 * (cut(list, i, e, k, span) * sum(list, i, e)) <= 2 * (sum(list, i, k) * span) + sum(
            list,
            i,
            e,
        ),
        2 * (sum(list, i, k) * span) < 2 * (cut(list, i, e, k, span) * sum(list, i, e)) + sum(
            list,
            i,
            e,
        ),
{
    law_lengths_are_rounded_to_the_nearest(sum(list, i, k) * span, sum(list, i, e));
}

/// A row is as thick as what is in it, out of all that is still to be drawn, comes to of what is left,
/// to the nearest cell, and at least one.
pub proof fn law_each_row_gets_its_share(free: Free, part: nat, rest: nat)
    requires
        rest > 0,
    ensures
        ({
            let deep = (if free.width <= free.height {
                free.height
            } else {
                free.width
            }) as nat;
            let thick = thickness(free, part, rest);
            &&& thick >= 1
            &&& 2 * (part * deep) < 2 * (thick * rest) + rest
            &&& thick > 1 ==> 2 * (thick * rest) <= 2 * (part * deep) + rest
        }),
{
    let d = free.depth() as nat;
    law_lengths_are_rounded_to_the_nearest(part * d, rest);
    let exact = rounded(part * d, rest);
    if exact < 1 {
        assert(exact == 0);
        assert(0 * rest == 0 && 1 * rest == rest);
    }
}

/// What a row adds up to is what is in it.
pub proof fn law_a_row_adds_up(list: Seq<Block>, i: int, k: int)
    requires
        0 <= i <= k < list.len(),
    ensures
        sum(list, i, i) == 0,
        sum(list, i, k + 1) == sum(list, i, k) + list[k].size,
{
}

/// A tile is where its item begins and ends along the row, and as thick as the row. Rows go along the
/// shorter side of what is left.
pub proof fn law_where_a_tile_is(
    list: Seq<Block>,
    i: int,
    e: int,
    k: int,
    free: Free,
    thick: nat,
)
    requires
        free.wf(),
        thick <= u16::MAX,
        cut(list, i, e, k, free.span() as nat) <= cut(list, i, e, k + 1, free.span() as nat)
            <= free.span(),
    ensures
        ({
            let t = row_tile(list, i, e, k, free, thick);
            let short = (if free.width <= free.height {
                free.width
            } else {
                free.height
            }) as nat;
            let (from, to) = (cut(list, i, e, k, short), cut(list, i, e, k + 1, short));
            &&& t.id == list[k].id
            &&& if free.width <= free.height {
                t.x == free.x + from && t.width == to - from && t.y == free.y && t.height == thick
            } else {
                t.y == free.y + from && t.height == to - from && t.x == free.x && t.width == thick
            }
        }),
{
}

/// Every item of a row that comes to a cell is drawn.
pub proof fn law_every_item_of_a_row_is_drawn(
    list: Seq<Block>,
    i: int,
    e: int,
    n: int,
    k: int,
    free: Free,
    thick: nat,
)
    requires
        i <= k < n,
        cut(list, i, e, k, free.span() as nat) < cut(list, i, e, k + 1, free.span() as nat),
    ensures
        row_tiles(list, i, e, n, free, thick).contains(row_tile(list, i, e, k, free, thick)),
    decreases n - k,
{
    let t = row_tile(list, i, e, k, free, thick);
    let now = row_tiles(list, i, e, n, free, thick);
    if k == n - 1 {
        assert(now[now.len() - 1] == t);
    } else {
        law_every_item_of_a_row_is_drawn(list, i, e, n - 1, k, free, thick);
        let was = row_tiles(list, i, e, n - 1, free, thick);
        let m = choose|m: int| 0 <= m < was.len() && was[m] == t;
        assert(now[m] == t);
    }
}

/// The shapes that a row is judged by: an item of size `s` in a row of `part` is as long as its share
/// of the row's length, and as thick as the row's share of what is left. How much longer than thick
/// that is, and how much thicker than long, are fractions of each other.
pub proof fn law_what_a_row_is_judged_by(free: Free, rest: nat, part: nat, s: nat)
    requires
        rest > 0,
        part > 0,
        s > 0,
    ensures
        ({
            let (span, deep) = (free.span() as nat, free.depth() as nat);
            let long = too_long(free, rest, part, s);
            let thick = too_thick(free, rest, part, s);
            &&& long.0 * (part * part * deep) == (s * span * rest) * long.1
            &&& thick.0 * (s * span * rest) == (part * part * deep) * thick.1
        }),
{
    let (w, d) = (free.span() as nat, free.depth() as nat);
    let c = free.cells();
    assert(c == w * d) by {
        if !free.across() {
            assert(free.width * free.height == free.height * free.width) by (nonlinear_arith);
        }
    }
    assert(rest * (w * w) * s * (part * part * d) == (s * w * rest) * (part * part * (w * d)))
        by (nonlinear_arith);
    assert((part * part * (w * d)) * (s * w * rest) == (part * part * d) * (rest * (w * w) * s))
        by (nonlinear_arith);
}

/// A row takes in one item after another as long as its worst shape gets no worse by it.
pub proof fn law_when_a_row_ends(list: Seq<Block>, i: int, e: int, rest: nat, free: Free)
    requires
        0 <= i < e <= list.len(),
    ensures
        ({
            let end = row_end(list, i, e, rest, free);
            &&& e <= end <= list.len()
            &&& forall|k: int| e <= k < end ==> !#[trigger] gets_worse(list, i, k, rest, free)
            &&& end < list.len() ==> gets_worse(list, i, end, rest, free)
        }),
    decreases list.len() - e,
{
    if e < list.len() && !gets_worse(list, i, e, rest, free) {
        law_when_a_row_ends(list, i, e + 1, rest, free);
    }
}

/// A row gets worse by an item where one of its shapes then is worse than each of them was before: how
/// long the first item is for its thickness, or how thick the last one is for its length.
pub proof fn law_when_a_row_gets_worse(list: Seq<Block>, i: int, e: int, rest: nat, free: Free)
    ensures
        ({
            let (part, more) = (sum(list, i, e), sum(list, i, e + 1));
            let was = (
                too_thick(free, rest, part, list[e - 1].size as nat),
                too_long(free, rest, part, list[i].size as nat),
            );
            let now = (
                too_thick(free, rest, more, list[e].size as nat),
                too_long(free, rest, more, list[i].size as nat),
            );
            gets_worse(list, i, e, rest, free) == {
                ||| now.0.0 * was.0.1 > was.0.0 * now.0.1 && now.0.0 * was.1.1 > was.1.0 * now.0.1
                ||| now.1.0 * was.0.1 > was.0.0 * now.1.1 && now.1.0 * was.1.1 > was.1.0 * now.1.1
            }
        }),
{
}

} // verus!
