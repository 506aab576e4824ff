//! What a listing shows, told off the tree.

use vstd::prelude::*;

use super::{are_row_keys, is_row_order, listing, row_order, RowKey, Sort};
use crate::dup::arranged;
use crate::model::{is_kid, is_listed, NodeId, Tree};
use crate::order::alike::lemma_order_exists;
use crate::order::{
    comes_first, is_order, law_bytes_are_compared_like_words, lemma_order_complete,
    lemma_order_distinct, spells_before,
};

verus! {

/// Whether the first of two entries belongs above the second: the larger one, the one with more in
/// it or the newer one, or the one whose name comes first.
pub open spec fn belongs_above(t: Tree, sort: Sort, apparent: bool, a: NodeId, b: NodeId) -> bool {
    let (x, y) = (t.nodes()[a as int], t.nodes()[b as int]);
    match sort {
        Sort::Size => if apparent {
            x.apparent >= y.apparent
        } else {
            x.disk >= y.disk
        },
        Sort::Name => spells_before(t.spec_name(a), t.spec_name(b)),
        Sort::Items => x.items >= y.items,
        Sort::Mtime => x.mtime >= y.mtime,
    }
}

/// Whether rows are what is in a directory, each once, in order from the top, or from the bottom
/// where `reverse`.
pub open spec fn is_listing_of(
    t: Tree,
    dir: NodeId,
    sort: Sort,
    reverse: bool,
    apparent: bool,
    rows: Seq<NodeId>,
) -> bool {
    &&& rows.no_duplicates()
    &&& forall|c: NodeId| #[trigger]
        rows.contains(c) <==> 0 < c < t.nodes().len() && t.nodes()[c as int].parent == dir
    &&& forall|i: int, j: int|
        0 <= i < j < rows.len() ==> if reverse {
            belongs_above(t, sort, apparent, #[trigger] rows[j], #[trigger] rows[i])
        } else {
            belongs_above(t, sort, apparent, rows[i], rows[j])
        }
}

/// Rows in the order of their keys are in the order of what the tree says of them.
pub proof fn law_an_order_of_rows_is_one_of_the_tree(
    t: Tree,
    sort: Sort,
    apparent: bool,
    ids: Seq<NodeId>,
    p: Seq<int>,
    i: int,
    j: int,
)
    requires
        is_row_order(t, sort, apparent, ids, p),
        0 <= i < j < p.len(),
    ensures
        belongs_above(t, sort, apparent, arranged(ids, p)[i], arranged(ids, p)[j]),
{
    let keys = choose|keys: Seq<RowKey>| #[trigger]
        are_row_keys(t, sort, apparent, ids, keys) && is_order(keys, p);
    assert(comes_first(keys, p[i], p[j]));
    assert(keys[p[i]].name@ == keys[p[i]].name@);
    assert(keys[p[j]].name@ == keys[p[j]].name@);
    law_bytes_are_compared_like_words(keys[p[i]].name@, keys[p[j]].name@);
}

/// A directory is listed in order: by size the largest first, by item count the fullest first, by
/// mtime the newest first and by name from A to Z, or the other way round. Every entry of the
/// directory is listed once, and nothing else.
pub proof fn law_rows_are_in_order(
    t: Tree,
    dir: NodeId,
    sort: Sort,
    reverse: bool,
    apparent: bool,
    keys: Seq<RowKey>,
)
    requires
        t.wf(),
        t.holds(dir),
        are_row_keys(t, sort, apparent, t.kids()[dir as int], keys),
    ensures
        is_listing_of(t, dir, sort, reverse, apparent, listing(t, dir, sort, reverse, apparent)),
{
    let kids = t.kids()[dir as int];
    lemma_order_exists(keys);
    let q = choose|q: Seq<int>| is_order(keys, q);
    assert(is_row_order(t, sort, apparent, kids, q));
    let p = row_order(t, sort, apparent, kids);
    assert(is_row_order(t, sort, apparent, kids, p));
    lemma_listing(t, dir, sort, reverse, apparent, p);
}

pub(crate) proof fn lemma_listing(
    t: Tree,
    dir: NodeId,
    sort: Sort,
    reverse: bool,
    apparent: bool,
    p: Seq<int>,
)
    requires
        t.wf(),
        t.holds(dir),
        is_row_order(t, sort, apparent, t.kids()[dir as int], p),
        p == row_order(t, sort, apparent, t.kids()[dir as int]),
    ensures
        is_listing_of(t, dir, sort, reverse, apparent, listing(t, dir, sort, reverse, apparent)),
{
    let kids = t.kids()[dir as int];
    let keys = choose|keys: Seq<RowKey>| #[trigger]
        are_row_keys(t, sort, apparent, kids, keys) && is_order(keys, p);
    lemma_order_distinct(keys, p);
    let straight = arranged(kids, p);
    let rows = listing(t, dir, sort, reverse, apparent);
    let n = rows.len() as int;
    assert(straight.len() == n);
    assert(kids.no_duplicates());
    assert forall|i: int| 0 <= i < n implies #[trigger] rows[i] == straight[if reverse {
        n - 1 - i
    } else {
        i
    }] by {}
    assert forall|i: int, j: int| 0 <= i < n && 0 <= j < n && i != j implies rows[i]
        != rows[j] by {
        let a = if reverse { n - 1 - i } else { i };
        let b = if reverse { n - 1 - j } else { j };
        assert(p[a] != p[b]);
        assert(kids[p[a]] != kids[p[b]]);
    }
    assert forall|i: int, j: int| 0 <= i < j < n implies if reverse {
        belongs_above(t, sort, apparent, #[trigger] rows[j], #[trigger] rows[i])
    } else {
        belongs_above(t, sort, apparent, rows[i], rows[j])
    } by {
        if reverse {
            law_an_order_of_rows_is_one_of_the_tree(
                t,
                sort,
                apparent,
                kids,
                p,
                n - 1 - j,
                n - 1 - i,
            );
        } else {
            law_an_order_of_rows_is_one_of_the_tree(t, sort, apparent, kids, p, i, j);
        }
    }
    assert forall|c: NodeId| #[trigger] rows.contains(c) <==> 0 < c < t.nodes().len()
        && t.nodes()[c as int].parent == dir by {
        if rows.contains(c) {
            let i = choose|i: int| 0 <= i < n && rows[i] == c;
            let a = if reverse { n - 1 - i } else { i };
            assert(is_kid(t.nodes(), kids[p[a]], dir as int));
        }
        if 0 < c < t.nodes().len() && t.nodes()[c as int].parent == dir {
            assert(is_listed(t.nodes(), t.kids(), c as int));
            let k = choose|k: int| 0 <= k < kids.len() && kids[k] == c;
            lemma_order_complete(keys, p, k);
            let a = choose|a: int| 0 <= a < p.len() && p[a] == k;
            let i = if reverse { n - 1 - a } else { a };
            assert(rows[i] == c);
        }
    }
}

/// Entries that neither belongs above the other stay in the order they have in the tree.
pub proof fn law_equals_keep_their_order(
    t: Tree,
    sort: Sort,
    apparent: bool,
    ids: Seq<NodeId>,
    p: Seq<int>,
    i: int,
    j: int,
)
    requires
        is_row_order(t, sort, apparent, ids, p),
        0 <= i < j < p.len(),
        belongs_above(t, sort, apparent, ids[p[j]], ids[p[i]]),
    ensures
        p[i] < p[j],
{
    let keys = choose|keys: Seq<RowKey>| #[trigger]
        are_row_keys(t, sort, apparent, ids, keys) && is_order(keys, p);
    assert(comes_first(keys, p[i], p[j]));
    assert(keys[p[i]].name@ == keys[p[i]].name@);
    assert(keys[p[j]].name@ == keys[p[j]].name@);
    law_bytes_are_compared_like_words(keys[p[i]].name@, keys[p[j]].name@);
    law_bytes_are_compared_like_words(keys[p[j]].name@, keys[p[i]].name@);
}

} // verus!
