//! Squarified treemap layout.
//!
//! Areas are proportional to size, and the algorithm (Bruls, Huizing and van Wijk) keeps the
//! rectangles as close to square as it can: long thin slivers are hard to compare by eye and hard
//! to label, which is the entire point of drawing this instead of reading the list.
//!
//! Geometry only, in whole numbers: proportions are compared as fractions.

pub mod fair;
pub mod steady;

use vstd::prelude::*;

use crate::big::Big;
use crate::dup::arranged;
use crate::model::NodeId;
use crate::order::alike::{lemma_order_exists, lemma_order_of, order_of};
use crate::order::{ints, stable_order, Ranked};

verus! {

#[derive(Clone, Copy, Debug, PartialEq, Eq, Structural)]
pub struct Tile {
    pub id: NodeId,
    pub x: u16,
    pub y: u16,
    pub width: u16,
    pub height: u16,
}

impl Tile {
    pub open spec fn covers(&self, x: int, y: int) -> bool {
        self.x <= x < self.x + self.width && self.y <= y < self.y + self.height
    }

    pub fn contains(&self, x: u16, y: u16) -> (r: bool)
        requires
            self.x + self.width <= u16::MAX,
            self.y + self.height <= u16::MAX,
        ensures
            r == self.covers(x as int, y as int),
    {
        x >= self.x && x < self.x + self.width && y >= self.y && y < self.y + self.height
    }

    pub fn area(&self) -> (r: u32)
        ensures
            r == self.width * self.height,
    {
        proof {
            assert(self.width as int * self.height as int <= 0xffff * 0xffff) by (nonlinear_arith)
                requires
                    0 <= self.width <= 0xffff,
                    0 <= self.height <= 0xffff,
            ;
        }
        self.width as u32 * self.height as u32
    }
}

/// A rectangle still to be filled, in cells.
#[derive(Clone, Copy, Debug, PartialEq, Eq, Structural)]
pub struct Free {
    pub x: u16,
    pub y: u16,
    pub width: u16,
    pub height: u16,
}

impl Free {
    pub open spec fn wf(&self) -> bool {
        self.x + self.width <= u16::MAX && self.y + self.height <= u16::MAX
    }

    pub open spec fn covers(&self, x: int, y: int) -> bool {
        self.x <= x < self.x + self.width && self.y <= y < self.y + self.height
    }

    pub open spec fn is_empty(&self) -> bool {
        self.width == 0 || self.height == 0
    }

    /// Whether a row goes across the top rather than down the left.
    pub open spec fn across(&self) -> bool {
        self.width <= self.height
    }

    /// The side a row runs along, which is the shorter one.
    pub open spec fn span(&self) -> u16 {
        if self.across() {
            self.width
        } else {
            self.height
        }
    }

    /// How thick a row can be at most.
    pub open spec fn depth(&self) -> u16 {
        if self.across() {
            self.height
        } else {
            self.width
        }
    }

    pub open spec fn cells(&self) -> nat {
        (self.width * self.height) as nat
    }
}

/// Something to be drawn, and how large it is.
#[derive(Clone, Copy, Debug, PartialEq, Eq, Structural)]
pub struct Block {
    pub id: NodeId,
    pub size: u64,
}

/// Largest first, and by id where that is a tie: it must break the same way every frame or the map
/// flickers.
impl Ranked for Block {
    open spec fn at_most(&self, other: &Self) -> bool {
        self.size > other.size || (self.size == other.size && self.id <= other.id)
    }

    proof fn total(a: &Self, b: &Self) {
    }

    proof fn transitive(a: &Self, b: &Self, c: &Self) {
    }

    fn is_at_most(&self, other: &Self) -> (r: bool) {
        self.size > other.size || (self.size == other.size && self.id <= other.id)
    }
}

/// Those of the first `n` items that have a size at all.
pub open spec fn drawable(items: Seq<(NodeId, u64)>, n: int) -> Seq<Block>
    decreases n,
{
    if n <= 0 {
        Seq::empty()
    } else if items[n - 1].1 > 0 {
        drawable(items, n - 1).push(Block { id: items[n - 1].0, size: items[n - 1].1 })
    } else {
        drawable(items, n - 1)
    }
}

/// What is to be drawn, largest first.
pub open spec fn largest_first(items: Seq<(NodeId, u64)>) -> Seq<Block> {
    let list = drawable(items, items.len() as int);
    arranged(list, order_of(list))
}

/// What the items from `i` up to `e` add up to.
pub open spec fn sum(list: Seq<Block>, i: int, e: int) -> nat
    decreases e - i,
{
    if e <= i {
        0
    } else {
        sum(list, i, e - 1) + list[e - 1].size as nat
    }
}

/// Whether the fraction `a` is larger than the fraction `b`.
pub open spec fn exceeds(a: (nat, nat), b: (nat, nat)) -> bool {
    a.0 * b.1 > b.0 * a.1
}

/// How much thicker than long the smallest rectangle of a row is. Of `rest` that `free` is left
/// for, the row gets `part`, and the smallest item in it is `least`.
///
/// A row takes as many cells as its part of the rest, so it is `part * cells / rest / span` thick;
/// and an item in it is `least * span / part` long.
pub open spec fn too_thick(free: Free, rest: nat, part: nat, least: nat) -> (nat, nat) {
    (part * part * free.cells(), rest * (free.span() as nat * free.span() as nat) * least)
}

/// How much longer than thick the largest rectangle of a row is.
pub open spec fn too_long(free: Free, rest: nat, part: nat, most: nat) -> (nat, nat) {
    (rest * (free.span() as nat * free.span() as nat) * most, part * part * free.cells())
}

/// Whether the row from `i` up to `e` gets worse by taking in one more item: whether the ratio of
/// sides of its worst rectangle grows. That is the smallest one if they are too thick and the
/// largest one if they are too long.
pub open spec fn gets_worse(list: Seq<Block>, i: int, e: int, rest: nat, free: Free) -> bool {
    let part = sum(list, i, e);
    let more = sum(list, i, e + 1);
    let most = list[i].size as nat;
    let thick = too_thick(free, rest, part, list[e - 1].size as nat);
    let long = too_long(free, rest, part, most);
    let thicker = too_thick(free, rest, more, list[e].size as nat);
    let longer = too_long(free, rest, more, most);
    (exceeds(thicker, thick) && exceeds(thicker, long)) || (exceeds(longer, thick) && exceeds(
        longer,
        long,
    ))
}

/// Where the row that starts at `i` ends, of which the items before `e` are known to be in it.
pub open spec fn row_end(list: Seq<Block>, i: int, e: int, rest: nat, free: Free) -> int
    decreases list.len() - e,
{
    if e < list.len() && !gets_worse(list, i, e, rest, free) {
        row_end(list, i, e + 1, rest, free)
    } else {
        e
    }
}

/// The whole number nearest to `a / b`.
pub open spec fn rounded(a: nat, b: nat) -> nat {
    (2 * a + b) / (2 * b)
}

/// How thick a row is, in whole cells: at least one so that it is visible at all.
pub open spec fn thickness(free: Free, part: nat, rest: nat) -> nat {
    let exact = rounded(part * free.depth() as nat, rest);
    if exact < 1 {
        1
    } else {
        exact
    }
}

/// Where along a row the item at `k` starts.
pub open spec fn cut(list: Seq<Block>, i: int, e: int, k: int, span: nat) -> nat {
    rounded(sum(list, i, k) * span, sum(list, i, e))
}

/// The tile of the item at `k`.
pub open spec fn row_tile(list: Seq<Block>, i: int, e: int, k: int, free: Free, thick: nat) -> Tile {
    let from = cut(list, i, e, k, free.span() as nat);
    let to = cut(list, i, e, k + 1, free.span() as nat);
    if free.across() {
        Tile {
            id: list[k].id,
            x: (free.x + from) as u16,
            y: free.y,
            width: (to - from) as u16,
            height: thick as u16,
        }
    } else {
        Tile {
            id: list[k].id,
            x: free.x,
            y: (free.y + from) as u16,
            width: thick as u16,
            height: (to - from) as u16,
        }
    }
}

/// The tiles of the items of a row up to `k`. Anything that would round to nothing is dropped.
pub open spec fn row_tiles(
    list: Seq<Block>,
    i: int,
    e: int,
    k: int,
    free: Free,
    thick: nat,
) -> Seq<Tile>
    decreases k - i,
{
    if k <= i {
        Seq::empty()
    } else if cut(list, i, e, k - 1, free.span() as nat) < cut(
        list,
        i,
        e,
        k,
        free.span() as nat,
    ) {
        row_tiles(list, i, e, k - 1, free, thick).push(row_tile(list, i, e, k - 1, free, thick))
    } else {
        row_tiles(list, i, e, k - 1, free, thick)
    }
}

/// What is left once a row is cut off.
pub open spec fn free_after(free: Free, thick: nat) -> Free {
    if free.across() {
        Free { y: (free.y + thick) as u16, height: (free.height - thick) as u16, ..free }
    } else {
        Free { x: (free.x + thick) as u16, width: (free.width - thick) as u16, ..free }
    }
}

/// The tiles of the items from `i` on, in what is still free.
pub open spec fn layout(list: Seq<Block>, i: int, free: Free) -> Seq<Tile>
    decreases list.len() - i,
{
    if i >= list.len() || free.is_empty() {
        Seq::empty()
    } else {
        let rest = sum(list, i, list.len() as int);
        let e = row_end(list, i, i + 1, rest, free);
        let thick = thickness(free, sum(list, i, e), rest);
        if e <= i || e > list.len() {
            Seq::empty()
        } else {
            row_tiles(list, i, e, e, free, thick) + layout(list, e, free_after(free, thick))
        }
    }
}

/// The whole map.
pub open spec fn map_of(items: Seq<(NodeId, u64)>, free: Free) -> Seq<Tile> {
    layout(largest_first(items), 0, free)
}

// ---------------------------------------------------------------------------------------------
// Arithmetic

proof fn lemma_sum_split(list: Seq<Block>, i: int, k: int, e: int)
    requires
        i <= k <= e,
    ensures
        sum(list, i, e) == sum(list, i, k) + sum(list, k, e),
    decreases e - k,
{
    if k < e {
        lemma_sum_split(list, i, k, e - 1);
    }
}

proof fn lemma_sum_bound(list: Seq<Block>, i: int, e: int)
    requires
        i <= e,
    ensures
        sum(list, i, e) <= (e - i) * 0xffff_ffff_ffff_ffff,
    decreases e - i,
{
    if i < e {
        lemma_sum_bound(list, i, e - 1);
    }
}

proof fn lemma_sum_positive(list: Seq<Block>, i: int, e: int)
    requires
        0 <= i < e <= list.len(),
        forall|k: int| 0 <= k < list.len() ==> (#[trigger] list[k]).size > 0,
    ensures
        sum(list, i, e) > 0,
{
    assert(list[e - 1].size > 0);
}

proof fn lemma_rounded(a: nat, b: nat, n: nat)
    requires
        b > 0,
        a <= b * n,
    ensures
        rounded(a, b) <= n,
        a == b * n ==> rounded(a, b) == n,
{
    let x = (2 * a + b) as int;
    let d = (2 * b) as int;
    assert(2 * (b * n) == n * (2 * b)) by (nonlinear_arith);
    assert(x / d <= n) by (nonlinear_arith)
        requires
            d > 0,
            x < n * d + d,
    ;
    if a == b * n {
        assert(x / d == n) by (nonlinear_arith)
            requires
                d > 0,
                n * d <= x < n * d + d,
        ;
    }
}

proof fn lemma_rounded_grows(a: nat, c: nat, b: nat)
    requires
        b > 0,
        a <= c,
    ensures
        rounded(a, b) <= rounded(c, b),
{
    let x = (2 * a + b) as int;
    let y = (2 * c + b) as int;
    let d = (2 * b) as int;
    vstd::arithmetic::div_mod::lemma_div_is_ordered(x, y, d);
}

/// Where items start along a row: in order, from one end to the other.
proof fn lemma_cuts(list: Seq<Block>, i: int, e: int, k: int, span: nat)
    requires
        i <= k < e,
        sum(list, i, e) > 0,
    ensures
        cut(list, i, e, k, span) <= cut(list, i, e, k + 1, span) <= span,
        cut(list, i, e, i, span) == 0,
        cut(list, i, e, e, span) == span,
{
    let all = sum(list, i, e);
    lemma_sum_split(list, i, k + 1, e);
    lemma_sum_split(list, i, k, k + 1);
    let a = sum(list, i, k);
    let b = sum(list, i, k + 1);
    assert(a * span <= b * span) by (nonlinear_arith)
        requires
            a <= b,
    ;
    assert(b * span <= all * span) by (nonlinear_arith)
        requires
            b <= all,
    ;
    lemma_rounded_grows(a * span, b * span, all);
    lemma_rounded(b * span, all, span);
    assert(0 * span == 0) by (nonlinear_arith);
    lemma_rounded(0, all, 0);
    lemma_rounded(all * span, all, span);
}

/// A row is no thicker than there is room for; the last one takes all of it.
proof fn lemma_thickness(free: Free, part: nat, rest: nat)
    requires
        0 < part <= rest,
        free.depth() > 0,
    ensures
        1 <= thickness(free, part, rest) <= free.depth(),
        part == rest ==> thickness(free, part, rest) == free.depth(),
{
    let d = free.depth() as nat;
    assert(part * d <= rest * d) by (nonlinear_arith)
        requires
            part <= rest,
    ;
    lemma_rounded(part * d, rest, d);
}

// ---------------------------------------------------------------------------------------------
// Tiles cover the area

/// Whether a tile lies within a rectangle and is visible at all.
pub open spec fn is_within(t: Tile, free: Free) -> bool {
    &&& t.width > 0
    &&& t.height > 0
    &&& free.x <= t.x
    &&& free.y <= t.y
    &&& t.x + t.width <= free.x + free.width
    &&& t.y + t.height <= free.y + free.height
}

/// Whether no cell belongs to both tiles.
pub open spec fn apart(a: Tile, b: Tile) -> bool {
    forall|x: int, y: int| !(#[trigger] a.covers(x, y) && #[trigger] b.covers(x, y))
}

/// Whether every cell of a rectangle belongs to exactly one tile, and no tile leaves it.
pub open spec fn partitions(tiles: Seq<Tile>, free: Free) -> bool {
    &&& forall|i: int| 0 <= i < tiles.len() ==> is_within(#[trigger] tiles[i], free)
    &&& forall|i: int, j: int|
        0 <= i < j < tiles.len() ==> apart(#[trigger] tiles[i], #[trigger] tiles[j])
    &&& forall|x: int, y: int| #[trigger]
        free.covers(x, y) ==> exists|i: int|
            0 <= i < tiles.len() && (#[trigger] tiles[i]).covers(x, y)
}

/// Two rectangles that make up a third.
spec fn splits(a: Free, b: Free, free: Free) -> bool {
    &&& forall|x: int, y: int| #[trigger] free.covers(x, y) == (a.covers(x, y) || b.covers(x, y))
    &&& forall|x: int, y: int| !(#[trigger] a.covers(x, y) && #[trigger] b.covers(x, y))
    &&& free.x <= a.x
    &&& free.y <= a.y
    &&& a.x + a.width <= free.x + free.width
    &&& a.y + a.height <= free.y + free.height
    &&& free.x <= b.x
    &&& free.y <= b.y
    &&& b.x + b.width <= free.x + free.width
    &&& b.y + b.height <= free.y + free.height
}

proof fn lemma_join(s: Seq<Tile>, t: Seq<Tile>, a: Free, b: Free, free: Free)
    requires
        partitions(s, a),
        partitions(t, b),
        splits(a, b, free),
    ensures
        partitions(s + t, free),
{
    let all = s + t;
    assert forall|i: int| 0 <= i < all.len() implies is_within(#[trigger] all[i], free) by {
        if i < s.len() {
            assert(is_within(s[i], a));
        } else {
            assert(is_within(t[i - s.len()], b));
        }
    }
    assert forall|i: int, j: int| 0 <= i < j < all.len() implies apart(
        #[trigger] all[i],
        #[trigger] all[j],
    ) by {
        if j < s.len() {
            assert(apart(s[i], s[j]));
        } else if i >= s.len() {
            assert(apart(t[i - s.len()], t[j - s.len()]));
        } else {
            assert(is_within(s[i], a));
            assert(is_within(t[j - s.len()], b));
            assert forall|x: int, y: int|
                !(#[trigger] all[i].covers(x, y) && #[trigger] all[j].covers(x, y)) by {
                if all[i].covers(x, y) && all[j].covers(x, y) {
                    assert(a.covers(x, y));
                    assert(b.covers(x, y));
                }
            }
        }
    }
    assert forall|x: int, y: int| #[trigger] free.covers(x, y) implies exists|i: int|
        0 <= i < all.len() && (#[trigger] all[i]).covers(x, y) by {
        if a.covers(x, y) {
            let i = choose|i: int| 0 <= i < s.len() && (#[trigger] s[i]).covers(x, y);
            assert(all[i].covers(x, y));
        } else {
            assert(b.covers(x, y));
            let i = choose|i: int| 0 <= i < t.len() && (#[trigger] t[i]).covers(x, y);
            assert(all[i + s.len()].covers(x, y));
        }
    }
}

/// The part of a row that the items before `k` take up.
spec fn strip(free: Free, to: nat, thick: nat) -> Free {
    if free.across() {
        Free { width: to as u16, height: thick as u16, ..free }
    } else {
        Free { width: thick as u16, height: to as u16, ..free }
    }
}

proof fn lemma_row(list: Seq<Block>, i: int, e: int, k: int, free: Free, thick: nat)
    requires
        free.wf(),
        i <= k <= e,
        i < e,
        sum(list, i, e) > 0,
        1 <= thick <= free.depth(),
        free.span() > 0,
    ensures
        cut(list, i, e, k, free.span() as nat) <= free.span(),
        partitions(
            row_tiles(list, i, e, k, free, thick),
            strip(free, cut(list, i, e, k, free.span() as nat), thick),
        ),
    decreases k - i,
{
    let span = free.span() as nat;
    lemma_cuts(list, i, e, i, span);
    if k > i {
        lemma_row(list, i, e, k - 1, free, thick);
        lemma_cuts(list, i, e, k - 1, span);
        let from = cut(list, i, e, k - 1, span);
        let to = cut(list, i, e, k, span);
        let before = row_tiles(list, i, e, k - 1, free, thick);
        let a = strip(free, from, thick);
        let all = strip(free, to, thick);
        if from < to {
            let tile = row_tile(list, i, e, k - 1, free, thick);
            let b = Free { x: tile.x, y: tile.y, width: tile.width, height: tile.height };
            let one = seq![tile];
            assert(partitions(one, b)) by {
                assert forall|x: int, y: int| #[trigger] b.covers(x, y) implies exists|j: int|
                    0 <= j < one.len() && (#[trigger] one[j]).covers(x, y) by {
                    assert(one[0].covers(x, y));
                }
            }
            assert(splits(a, b, all));
            lemma_join(before, one, a, b, all);
            assert(before.push(tile) =~= before + one);
        }
    } else {
        let empty = strip(free, 0, thick);
        assert(partitions(row_tiles(list, i, e, k, free, thick), empty));
    }
}

proof fn lemma_row_end(list: Seq<Block>, i: int, e: int, rest: nat, free: Free)
    requires
        i < e <= list.len(),
    ensures
        e <= row_end(list, i, e, rest, free) <= list.len(),
    decreases list.len() - e,
{
    if e < list.len() && !gets_worse(list, i, e, rest, free) {
        lemma_row_end(list, i, e + 1, rest, free);
    }
}

proof fn lemma_layout(list: Seq<Block>, i: int, free: Free)
    requires
        free.wf(),
        0 <= i < list.len() || (0 <= i <= list.len() && free.is_empty()),
        forall|k: int| 0 <= k < list.len() ==> (#[trigger] list[k]).size > 0,
    ensures
        partitions(layout(list, i, free), free),
    decreases list.len() - i,
{
    if i < list.len() && !free.is_empty() {
        let n = list.len() as int;
        let rest = sum(list, i, n);
        let e = row_end(list, i, i + 1, rest, free);
        lemma_row_end(list, i, i + 1, rest, free);
        lemma_sum_positive(list, i, e);
        lemma_sum_split(list, i, e, n);
        let part = sum(list, i, e);
        let thick = thickness(free, part, rest);
        lemma_thickness(free, part, rest);
        let after = free_after(free, thick);
        let span = free.span() as nat;
        lemma_row(list, i, e, e, free, thick);
        lemma_cuts(list, i, e, e - 1, span);
        let first = strip(free, span, thick);
        if e == n {
            assert(sum(list, n, n) == 0);
        }
        lemma_layout(list, e, after);
        assert(splits(first, after, free));
        lemma_join(
            row_tiles(list, i, e, e, free, thick),
            layout(list, e, after),
            first,
            after,
            free,
        );
    } else {
        assert(layout(list, i, free) =~= Seq::<Tile>::empty());
    }
}

proof fn lemma_drawable_sizes(items: Seq<(NodeId, u64)>, n: int)
    requires
        0 <= n <= items.len(),
    ensures
        drawable(items, n).len() <= n,
        forall|k: int|
            0 <= k < drawable(items, n).len() ==> (#[trigger] drawable(items, n)[k]).size > 0,
        (exists|k: int| 0 <= k < n && (#[trigger] items[k]).1 > 0) ==> drawable(items, n).len() > 0,
    decreases n,
{
    if n > 0 {
        lemma_drawable_sizes(items, n - 1);
        if exists|k: int| 0 <= k < n && (#[trigger] items[k]).1 > 0 {
            let k = choose|k: int| 0 <= k < n && (#[trigger] items[k]).1 > 0;
            if k < n - 1 {
                assert(items[k].1 > 0);
            }
        }
    }
}

proof fn lemma_nothing_drawable(items: Seq<(NodeId, u64)>, n: int)
    requires
        0 <= n <= items.len(),
        forall|k: int| 0 <= k < items.len() ==> (#[trigger] items[k]).1 == 0,
    ensures
        drawable(items, n).len() == 0,
    decreases n,
{
    if n > 0 {
        lemma_nothing_drawable(items, n - 1);
    }
}

/// The tiles of a map cover its area: every cell belongs to exactly one tile, none of them leaves
/// the area, and none is empty. All it takes is something to draw.
pub proof fn law_tiles_partition_the_area(items: Seq<(NodeId, u64)>, free: Free)
    requires
        free.wf(),
        exists|k: int| 0 <= k < items.len() && (#[trigger] items[k]).1 > 0,
    ensures
        partitions(map_of(items, free), free),
{
    let list = drawable(items, items.len() as int);
    lemma_drawable_sizes(items, items.len() as int);
    lemma_order_exists(list);
    let p = order_of(list);
    let sorted = largest_first(items);
    assert forall|k: int| 0 <= k < sorted.len() implies (#[trigger] sorted[k]).size > 0 by {
        assert(sorted[k] == list[p[k]]);
    }
    lemma_layout(sorted, 0, free);
}

// ---------------------------------------------------------------------------------------------
// Laying out

/// A fraction.
struct Fraction {
    over: Big,
    under: Big,
}

impl Fraction {
    spec fn pair(&self) -> (nat, nat) {
        (self.over@, self.under@)
    }

    fn is_over(&self, other: &Fraction) -> (r: bool)
        ensures
            r == exceeds(self.pair(), other.pair()),
    {
        let a = self.over.times(&other.under);
        let b = other.over.times(&self.under);
        b.is_less(&a)
    }
}

fn side_squared(free: &Free) -> (r: u128)
    ensures
        r == free.span() as nat * free.span() as nat,
        r <= 0xffff_ffff,
{
    let span: u128 = if free.width <= free.height {
        free.width as u128
    } else {
        free.height as u128
    };
    proof {
        assert(span as int * span as int <= 0xffff * 0xffff) by (nonlinear_arith)
            requires
                0 <= span <= 0xffff,
        ;
    }
    span * span
}

/// How much thicker than long the smallest rectangle of a row is.
fn thick_of(free: &Free, rest: u128, part: u128, least: u64) -> (r: Fraction)
    ensures
        r.pair() == too_thick(*free, rest as nat, part as nat, least as nat),
{
    let p = Big::of(part);
    proof {
        assert(free.width as int * free.height as int <= 0xffff * 0xffff) by (nonlinear_arith)
            requires
                0 <= free.width <= 0xffff,
                0 <= free.height <= 0xffff,
        ;
    }
    let cells = Big::of(free.width as u128 * free.height as u128);
    let side = Big::of(side_squared(free));
    let size = Big::of(least as u128);
    Fraction {
        over: p.times(&p).times(&cells),
        under: Big::of(rest).times(&side).times(&size),
    }
}

/// How much longer than thick the largest rectangle of a row is.
fn long_of(free: &Free, rest: u128, part: u128, most: u64) -> (r: Fraction)
    ensures
        r.pair() == too_long(*free, rest as nat, part as nat, most as nat),
{
    let f = thick_of(free, rest, part, most);
    Fraction { over: f.under, under: f.over }
}

fn is_worse(
    list: &Vec<Block>,
    i: usize,
    e: usize,
    part: u128,
    more: u128,
    rest: u128,
    free: &Free,
) -> (r: bool)
    requires
        i < e < list@.len(),
        part == sum(list@, i as int, e as int),
        more == sum(list@, i as int, e + 1),
    ensures
        r == gets_worse(list@, i as int, e as int, rest as nat, *free),
{
    let thick = thick_of(free, rest, part, list[e - 1].size);
    let long = long_of(free, rest, part, list[i].size);
    let thicker = thick_of(free, rest, more, list[e].size);
    let longer = long_of(free, rest, more, list[i].size);
    (thicker.is_over(&thick) && thicker.is_over(&long)) || (longer.is_over(&thick)
        && longer.is_over(&long))
}

/// Whether `q` is no more than `a * m / b`, rounded.
fn fits(q: u32, a: u128, m: u16, b: u128) -> (r: bool)
    ensures
        r == (q * (2 * b) <= 2 * (a * m) + b),
{
    let left = Big::of(b).times(&Big::of(2 * q as u128));
    let right = Big::of(a).times(&Big::of(2 * m as u128)).plus(&Big::of(b));
    proof {
        assert(b as nat * (2 * q as nat) == q * (2 * b)) by (nonlinear_arith);
        assert(a as nat * (2 * m as nat) == 2 * (a * m)) by (nonlinear_arith);
    }
    !right.is_less(&left)
}

/// The whole number nearest to the part of `m` that `a` is of `b`, however large they are.
fn round_share(a: u128, m: u16, b: u128) -> (r: u16)
    requires
        0 < b,
        a <= b,
    ensures
        r == rounded(a as nat * m as nat, b as nat),
        r <= m,
{
    proof {
        assert(a as nat * m as nat <= b as nat * m as nat) by (nonlinear_arith)
            requires
                a <= b,
        ;
        lemma_rounded(a as nat * m as nat, b as nat, m as nat);
    }
    if b < 0x4000_0000_0000_0000_0000_0000_0000 {
        proof {
            assert(a as int * m as int <= 0x4000_0000_0000_0000_0000_0000_0000 * 0xffff)
                by (nonlinear_arith)
                requires
                    0 <= a as int <= 0x4000_0000_0000_0000_0000_0000_0000,
                    0 <= m as int <= 0xffff,
            ;
        }
        return ((2 * (a * m as u128) + b) / (2 * b)) as u16;
    }
    // The products need not fit, so the quotient is looked for instead of computed.
    let ghost x = (2 * (a * m) + b) as int;
    let ghost d = (2 * b) as int;
    let mut low: u32 = 0;
    let mut high: u32 = m as u32 + 1;
    proof {
        assert(0 * d == 0) by (nonlinear_arith);
        assert((m + 1) * d > x) by (nonlinear_arith)
            requires
                x == 2 * (a * m) + b,
                d == 2 * b,
                a * m <= b * m,
                0 < b,
        ;
    }
    while low + 1 < high
        invariant
            low < high <= m + 1,
            0 < b,
            x == 2 * (a * m) + b,
            d == 2 * b,
            low * d <= x,
            high * d > x,
        decreases high - low,
    {
        let mid: u32 = low + (high - low) / 2;
        if fits(mid, a, m, b) {
            low = mid;
        } else {
            high = mid;
        }
    }
    proof {
        assert(x / d == low) by (nonlinear_arith)
            requires
                low * d <= x < (low + 1) * d,
                d > 0,
        ;
    }
    low as u16
}

proof fn lemma_sum_small(list: Seq<Block>, i: int, e: int)
    requires
        list.len() <= 0xffff_ffff_ffff_ffff,
        0 <= i <= e <= list.len(),
    ensures
        sum(list, i, e) <= u128::MAX,
{
    lemma_sum_bound(list, i, e);
    assert((e - i) * 0xffff_ffff_ffff_ffff <= 0xffff_ffff_ffff_ffff * 0xffff_ffff_ffff_ffff)
        by (nonlinear_arith)
        requires
            0 <= e - i <= 0xffff_ffff_ffff_ffff,
    ;
}

/// Cut a strip off the free rectangle's shorter side and divide it among the items of a row.
fn place_row(
    list: &Vec<Block>,
    i: usize,
    e: usize,
    part: u128,
    rest: u128,
    free: &Free,
    tiles: &mut Vec<Tile>,
) -> (r: Free)
    requires
        i < e <= list@.len(),
        free.wf(),
        !free.is_empty(),
        part == sum(list@, i as int, e as int),
        0 < part <= rest,
    ensures
        r == free_after(*free, thickness(*free, part as nat, rest as nat)),
        r.wf(),
        final(tiles)@ == old(tiles)@ + row_tiles(
            list@,
            i as int,
            e as int,
            e as int,
            *free,
            thickness(*free, part as nat, rest as nat),
        ),
{
    let across = free.width <= free.height;
    let (span, depth): (u16, u16) = if across {
        (free.width, free.height)
    } else {
        (free.height, free.width)
    };
    proof {
        lemma_thickness(*free, part as nat, rest as nat);
    }
    let exact: u16 = round_share(part, depth, rest);
    let thick: u16 = if exact < 1 {
        1
    } else {
        exact
    };
    let ghost t = thickness(*free, part as nat, rest as nat);
    let ghost start = tiles@;
    let mut k: usize = i;
    let mut placed: u128 = 0;
    let mut offset: u16 = 0;
    proof {
        lemma_cuts(list@, i as int, e as int, i as int, span as nat);
        assert(tiles@ =~= start + row_tiles(list@, i as int, e as int, i as int, *free, t));
    }
    while k < e
        invariant
            i <= k <= e <= list@.len(),
            i < e,
            list.len() == list@.len(),
            free.wf(),
            across == free.across(),
            span == free.span(),
            depth == free.depth(),
            thick == t,
            1 <= t <= depth,
            part == sum(list@, i as int, e as int),
            0 < part,
            placed == sum(list@, i as int, k as int),
            offset == cut(list@, i as int, e as int, k as int, span as nat),
            offset <= span,
            tiles@ == start + row_tiles(list@, i as int, e as int, k as int, *free, t),
        decreases e - k,
    {
        let item: Block = list[k];
        proof {
            lemma_sum_small(list@, i as int, k + 1);
            lemma_cuts(list@, i as int, e as int, k as int, span as nat);
            lemma_sum_split(list@, i as int, k + 1, e as int);
        }
        placed = placed + item.size as u128;
        let to: u16 = round_share(placed, span, part);
        let length: u16 = to - offset;
        let ghost before = tiles@;
        if length > 0 {
            let tile = if across {
                Tile {
                    id: item.id,
                    x: free.x + offset,
                    y: free.y,
                    width: length,
                    height: thick,
                }
            } else {
                Tile {
                    id: item.id,
                    x: free.x,
                    y: free.y + offset,
                    width: thick,
                    height: length,
                }
            };
            tiles.push(tile);
            proof {
                assert(tile == row_tile(list@, i as int, e as int, k as int, *free, t));
            }
        }
        proof {
            assert(tiles@ =~= start + row_tiles(list@, i as int, e as int, k + 1, *free, t));
        }
        offset = to;
        k += 1;
    }
    if across {
        Free { x: free.x, y: free.y + thick, width: free.width, height: free.height - thick }
    } else {
        Free { x: free.x + thick, y: free.y, width: free.width - thick, height: free.height }
    }
}

/// What is to be drawn, largest first.
fn sort_items(items: &[(NodeId, u64)]) -> (r: Vec<Block>)
    ensures
        r@ == largest_first(items@),
        r@.len() <= items@.len(),
        forall|k: int| 0 <= k < r@.len() ==> (#[trigger] r@[k]).size > 0,
        (exists|k: int| 0 <= k < items@.len() && (#[trigger] items@[k]).1 > 0) ==> r@.len() > 0,
        r@.len() == drawable(items@, items@.len() as int).len(),
{
    let mut list: Vec<Block> = Vec::new();
    let mut i: usize = 0;
    while i < items.len()
        invariant
            i <= items@.len(),
            list@ == drawable(items@, i as int),
        decreases items.len() - i,
    {
        let (id, size): (NodeId, u64) = items[i];
        if size > 0 {
            list.push(Block { id, size });
        }
        i += 1;
    }
    let order = stable_order(&list);
    let ghost p = ints(order@);
    proof {
        lemma_order_of(list@, p);
        lemma_drawable_sizes(items@, items@.len() as int);
    }
    let mut out: Vec<Block> = Vec::new();
    i = 0;
    while i < order.len()
        invariant
            i <= order@.len(),
            p == ints(order@),
            order@.len() == list@.len(),
            forall|k: int| 0 <= k < order@.len() ==> (#[trigger] order@[k]) < list@.len(),
            forall|k: int| 0 <= k < list@.len() ==> (#[trigger] list@[k]).size > 0,
            out@.len() == i,
            forall|k: int| 0 <= k < i ==> #[trigger] out@[k] == list@[p[k]],
            forall|k: int| 0 <= k < i ==> (#[trigger] out@[k]).size > 0,
        decreases order.len() - i,
    {
        let item: Block = list[order[i]];
        out.push(item);
        i += 1;
    }
    proof {
        assert(out@ =~= largest_first(items@));
    }
    out
}

/// Lay `items` out in a `width` by `height` area at the origin `(x, y)`.
///
/// Items are taken largest first; anything that would round to nothing is dropped rather than
/// drawn as a zero-width sliver.
pub fn squarify(
    items: &[(NodeId, u64)],
    x: u16,
    y: u16,
    width: u16,
    height: u16,
) -> (r: Vec<Tile>)
    requires
        x + width <= u16::MAX,
        y + height <= u16::MAX,
    ensures
        r@ == map_of(items@, Free { x, y, width, height }),
        (r@.len() == 0) == (width == 0 || height == 0 || forall|k: int|
            0 <= k < items@.len() ==> (#[trigger] items@[k]).1 == 0),
        (exists|k: int| 0 <= k < items@.len() && (#[trigger] items@[k]).1 > 0) ==> partitions(
            r@,
            Free { x, y, width, height },
        ),
{
    let list = sort_items(items);
    let n: usize = list.len();
    let mut tiles: Vec<Tile> = Vec::new();
    let mut free = Free { x, y, width, height };
    let ghost area = free;
    let mut rest: u128 = 0;
    let mut index: usize = 0;
    while index < n
        invariant
            index <= n,
            n == list@.len(),
            n == list.len(),
            rest == sum(list@, 0, index as int),
        decreases n - index,
    {
        proof {
            lemma_sum_small(list@, 0, index + 1);
        }
        rest = rest + list[index].size as u128;
        index += 1;
    }
    index = 0;
    proof {
        lemma_sum_small(list@, 0, n as int);
        if list@.len() > 0 {
            lemma_layout(list@, 0, area);
        }
        assert(tiles@ + layout(list@, 0, free) =~= map_of(items@, area));
    }
    while index < n && free.width > 0 && free.height > 0
        invariant
            index <= n,
            n == list@.len(),
            n == list.len(),
            forall|k: int| 0 <= k < list@.len() ==> (#[trigger] list@[k]).size > 0,
            free.wf(),
            rest == sum(list@, index as int, n as int),
            tiles@ + layout(list@, index as int, free) == map_of(items@, area),
        decreases n - index,
    {
        let mut e: usize = index + 1;
        let mut part: u128 = list[index].size as u128;
        let ghost goal = row_end(list@, index as int, index + 1, rest as nat, free);
        proof {
            assert(sum(list@, index as int, index as int) == 0);
        }
        let mut growing = true;
        while growing && e < n
            invariant
                index < e <= n,
                n == list@.len(),
                n == list.len(),
                part == sum(list@, index as int, e as int),
                goal == row_end(list@, index as int, index + 1, rest as nat, free),
                goal == (if growing {
                    row_end(list@, index as int, e as int, rest as nat, free)
                } else {
                    e as int
                }),
            decreases n - e,
                if growing {
                    1int
                } else {
                    0int
                },
        {
            proof {
                lemma_sum_small(list@, index as int, e + 1);
            }
            let more: u128 = part + list[e].size as u128;
            if is_worse(&list, index, e, part, more, rest, &free) {
                growing = false;
            } else {
                part = more;
                e += 1;
            }
        }
        proof {
            assert(e == goal);
            lemma_sum_positive(list@, index as int, e as int);
            lemma_sum_split(list@, index as int, e as int, n as int);
        }
        let ghost before = tiles@;
        let ghost was = free;
        let next = place_row(&list, index, e, part, rest, &free, &mut tiles);
        proof {
            assert(tiles@ + layout(list@, e as int, next) =~= before + layout(
                list@,
                index as int,
                was,
            ));
        }
        free = next;
        rest = rest - part;
        index = e;
    }
    proof {
        assert(tiles@ + Seq::<Tile>::empty() =~= tiles@);
        if list@.len() > 0 && width > 0 && height > 0 {
            assert(area.covers(x as int, y as int));
        }
        if exists|k: int| 0 <= k < items@.len() && (#[trigger] items@[k]).1 > 0 {
            assert(list@.len() > 0);
        } else {
            lemma_nothing_drawable(items@, items@.len() as int);
        }
    }
    tiles
}

} // verus!
