//! What a node weighs by itself: its totals less those of its children.

use vstd::prelude::*;

use crate::model::{
    is_above, is_kid, is_listed, lemma_above_le, lemma_above_up, lemma_weight_none, linked,
    weight_below, Node, NodeId,
};

verus! {

/// What lies at or below the first `k` nodes of a chain, among the first `n` nodes.
pub open spec fn chain_weight(
    nodes: Seq<Node>,
    w: Seq<nat>,
    chain: Seq<NodeId>,
    k: int,
    n: int,
) -> nat
    decreases k,
{
    if k <= 0 {
        0
    } else {
        chain_weight(nodes, w, chain, k - 1, n) + weight_below(nodes, w, chain[k - 1] as int, n)
    }
}

/// A node below another one is at or below one of its children.
proof fn lemma_way_down(nodes: Seq<Node>, kids: Seq<Seq<NodeId>>, a: int, d: int) -> (j: int)
    requires
        linked(nodes, kids),
        0 <= a < nodes.len(),
        0 <= d < nodes.len(),
        a != d,
        is_above(nodes, a, d),
    ensures
        0 <= j < kids[a].len(),
        is_above(nodes, kids[a][j] as int, d),
    decreases d,
{
    let p = nodes[d].parent as int;
    if p == a {
        assert(is_listed(nodes, kids, d));
        let j = choose|j: int| 0 <= j < kids[a].len() && kids[a][j] == d as NodeId;
        j
    } else {
        let j = lemma_way_down(nodes, kids, a, p);
        j
    }
}

/// A node is at or below only one child of another.
proof fn lemma_one_way(nodes: Seq<Node>, a: int, x: int, y: int, d: int)
    requires
        0 <= d < nodes.len(),
        0 < x < nodes.len(),
        0 < y < nodes.len(),
        nodes[x].parent == a,
        nodes[y].parent == a,
        a < x,
        a < y,
        is_above(nodes, x, d),
        is_above(nodes, y, d),
    ensures
        x == y,
    decreases d,
{
    lemma_above_le(nodes, x, nodes[d].parent as int);
    lemma_above_le(nodes, y, nodes[d].parent as int);
    if x != d && y != d {
        lemma_one_way(nodes, a, x, y, nodes[d].parent as int);
    }
}

/// One more node adds to what lies below a chain of children at most once.
proof fn lemma_chain_step(
    nodes: Seq<Node>,
    kids: Seq<Seq<NodeId>>,
    w: Seq<nat>,
    a: int,
    k: int,
    d: int,
)
    requires
        linked(nodes, kids),
        0 <= a < nodes.len(),
        0 <= d < nodes.len(),
        0 <= k <= kids[a].len(),
    ensures
        chain_weight(nodes, w, kids[a], k, d + 1) == chain_weight(nodes, w, kids[a], k, d) + (if (
        exists|j: int| 0 <= j < k && is_above(nodes, #[trigger] kids[a][j] as int, d)) {
            w[d]
        } else {
            0
        }),
    decreases k,
{
    let chain = kids[a];
    if k > 0 {
        lemma_chain_step(nodes, kids, w, a, k - 1, d);
        assert(is_kid(nodes, kids[a][k - 1], a));
        let c = chain[k - 1] as int;
        if is_above(nodes, c, d) {
            if exists|j: int| 0 <= j < k - 1 && is_above(nodes, #[trigger] chain[j] as int, d) {
                let j = choose|j: int|
                    0 <= j < k - 1 && is_above(nodes, #[trigger] chain[j] as int, d);
                assert(is_kid(nodes, kids[a][j], a));
                lemma_one_way(nodes, a, c, chain[j] as int, d);
                assert(chain.no_duplicates());
            }
            assert(0 <= k - 1 < k && is_above(nodes, chain[k - 1] as int, d));
        } else {
            if exists|j: int| 0 <= j < k && is_above(nodes, #[trigger] chain[j] as int, d) {
                let j = choose|j: int| 0 <= j < k && is_above(nodes, #[trigger] chain[j] as int, d);
                assert(j < k - 1);
            }
        }
    }
}

/// What lies at or below a node is the node itself and what lies at or below its children.
pub proof fn lemma_parts(
    nodes: Seq<Node>,
    kids: Seq<Seq<NodeId>>,
    w: Seq<nat>,
    a: int,
    n: int,
)
    requires
        linked(nodes, kids),
        0 <= a < nodes.len(),
        0 <= n <= nodes.len(),
    ensures
        weight_below(nodes, w, a, n) == chain_weight(
            nodes,
            w,
            kids[a],
            kids[a].len() as int,
            n,
        ) + (if a < n {
            w[a]
        } else {
            0
        }),
    decreases n,
{
    let chain = kids[a];
    let len = chain.len() as int;
    if n <= 0 {
        lemma_chain_none(nodes, w, chain, len);
    } else {
        let d = n - 1;
        lemma_parts(nodes, kids, w, a, d);
        lemma_chain_step(nodes, kids, w, a, len, d);
        if exists|j: int| 0 <= j < len && is_above(nodes, #[trigger] kids[a][j] as int, d) {
            let j = choose|j: int| 0 <= j < len && is_above(nodes, #[trigger] kids[a][j] as int, d);
            assert(is_kid(nodes, kids[a][j], a));
            lemma_above_le(nodes, chain[j] as int, d);
            lemma_above_up(nodes, chain[j] as int, d);
        } else if is_above(nodes, a, d) && a != d {
            let j = lemma_way_down(nodes, kids, a, d);
            assert(is_above(nodes, kids[a][j] as int, d));
        }
    }
}

proof fn lemma_chain_none(nodes: Seq<Node>, w: Seq<nat>, chain: Seq<NodeId>, k: int)
    ensures
        chain_weight(nodes, w, chain, k, 0) == 0,
    decreases k,
{
    if k > 0 {
        lemma_chain_none(nodes, w, chain, k - 1);
        lemma_weight_none(nodes, w, chain[k - 1] as int, 0);
    }
}

} // verus!
