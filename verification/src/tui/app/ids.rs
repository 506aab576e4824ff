//! Node ids in order, so that what is built from a set of them reads top-down the way the tree
//! does and comes out the same every time.

use std::collections::{HashMap, HashSet};

use vstd::prelude::*;

use crate::model::NodeId;
use crate::order::{
    comes_first, ints, lemma_order_complete, lemma_order_distinct, stable_order, Rank,
};

verus! {

broadcast use vstd::std_specs::hash::group_hash_axioms;

pub open spec fn is_ascending(ids: Seq<NodeId>) -> bool {
    forall|i: int, j: int| 0 <= i < j < ids.len() ==> #[trigger] ids[i] < #[trigger] ids[j]
}

/// The members of a set in order.
pub open spec fn ids_in(set: Set<NodeId>) -> Seq<NodeId> {
    choose|ids: Seq<NodeId>| is_ascending(ids) && #[trigger] ids.to_set() == set
}

proof fn lemma_agree(a: Seq<NodeId>, b: Seq<NodeId>, n: int)
    requires
        is_ascending(a),
        is_ascending(b),
        a.to_set() == b.to_set(),
        0 <= n <= a.len(),
        n <= b.len(),
    ensures
        a.take(n) == b.take(n),
    decreases n,
{
    if n > 0 {
        lemma_agree(a, b, n - 1);
        assert(a.to_set().contains(a[n - 1]));
        assert(b.to_set().contains(b[n - 1]));
        let j = choose|j: int| 0 <= j < b.len() && b[j] == a[n - 1];
        let i = choose|i: int| 0 <= i < a.len() && a[i] == b[n - 1];
        if a[n - 1] < b[n - 1] {
            assert(j < n - 1);
            assert(a.take(n - 1)[j] == b.take(n - 1)[j]);
            assert(a[j] < a[n - 1]);
        }
        if b[n - 1] < a[n - 1] {
            assert(i < n - 1);
            assert(a.take(n - 1)[i] == b.take(n - 1)[i]);
            assert(b[i] < b[n - 1]);
        }
        assert(a.take(n) =~= a.take(n - 1).push(a[n - 1]));
        assert(b.take(n) =~= b.take(n - 1).push(b[n - 1]));
    } else {
        assert(a.take(0) =~= b.take(0));
    }
}

pub proof fn lemma_ids_in(ids: Seq<NodeId>, set: Set<NodeId>)
    requires
        is_ascending(ids),
        ids.to_set() == set,
    ensures
        ids == ids_in(set),
{
    let other = ids_in(set);
    ids.unique_seq_to_set();
    other.unique_seq_to_set();
    lemma_agree(ids, other, ids.len() as int);
    assert(ids.take(ids.len() as int) =~= ids);
    assert(other.take(ids.len() as int) =~= other);
}

/// Puts ids in order.
/// Every set has its members in order.
pub proof fn lemma_ids_exist(set: Set<NodeId>)
    ensures
        is_ascending(ids_in(set)),
        ids_in(set).to_set() == set,
{
    let ids = lemma_ids_below(set, u32::MAX as nat + 1);
    assert(ids.to_set() =~= set);
}

proof fn lemma_ids_below(set: Set<NodeId>, n: nat) -> (ids: Seq<NodeId>)
    requires
        n <= u32::MAX as nat + 1,
    ensures
        is_ascending(ids),
        forall|x: NodeId| #[trigger] ids.contains(x) <==> set.contains(x) && x < n,
    decreases n,
{
    if n == 0 {
        Seq::empty()
    } else {
        let below = lemma_ids_below(set, (n - 1) as nat);
        let last = (n - 1) as NodeId;
        if set.contains(last) {
            let ids = below.push(last);
            assert forall|i: int, j: int| 0 <= i < j < ids.len() implies #[trigger] ids[i]
                < #[trigger] ids[j] by {
                assert(below.contains(below[i]));
            }
            assert forall|x: NodeId| #[trigger] ids.contains(x) <==> set.contains(x) && x < n by {
                if below.contains(x) {
                    let k = choose|k: int| 0 <= k < below.len() && below[k] == x;
                    assert(ids[k] == x);
                }
                if x == last {
                    assert(ids[below.len() as int] == x);
                }
                if ids.contains(x) && x != last {
                    let k = choose|k: int| 0 <= k < ids.len() && ids[k] == x;
                    assert(below[k] == x);
                }
            }
            ids
        } else {
            below
        }
    }
}

fn sort_ids(ids: &Vec<NodeId>) -> (r: Vec<NodeId>)
    requires
        ids@.no_duplicates(),
    ensures
        is_ascending(r@),
        r@.to_set() == ids@.to_set(),
{
    let mut keys: Vec<Rank> = Vec::new();
    let mut i: usize = 0;
    while i < ids.len()
        invariant
            i <= ids@.len(),
            keys@.len() == i,
            forall|k: int|
                0 <= k < i ==> #[trigger] keys@[k] == (Rank { major: ids@[k] as u64, minor: 0 }),
        decreases ids.len() - i,
    {
        keys.push(Rank { major: ids[i] as u64, minor: 0 });
        i += 1;
    }
    let order = stable_order(&keys);
    let ghost p = ints(order@);
    let mut out: Vec<NodeId> = Vec::new();
    i = 0;
    while i < order.len()
        invariant
            i <= order@.len(),
            order@.len() == ids@.len(),
            p == ints(order@),
            forall|k: int| 0 <= k < order@.len() ==> (#[trigger] order@[k]) < ids@.len(),
            out@.len() == i,
            forall|k: int| 0 <= k < i ==> #[trigger] out@[k] == ids@[p[k]],
        decreases order.len() - i,
    {
        out.push(ids[order[i]]);
        i += 1;
    }
    proof {
        lemma_order_distinct(keys@, p);
        assert forall|i: int, j: int| 0 <= i < j < out@.len() implies #[trigger] out@[i]
            < #[trigger] out@[j] by {
            assert(comes_first(keys@, p[i], p[j]));
            assert(p[i] != p[j]);
            assert(keys@[p[i]].major == ids@[p[i]]);
            assert(keys@[p[j]].major == ids@[p[j]]);
        }
        assert forall|x: NodeId| out@.to_set().contains(x) == ids@.to_set().contains(x) by {
            if out@.contains(x) {
                let k = choose|k: int| 0 <= k < out@.len() && out@[k] == x;
                assert(ids@[p[k]] == x);
            }
            if ids@.contains(x) {
                let k = choose|k: int| 0 <= k < ids@.len() && ids@[k] == x;
                lemma_order_complete(keys@, p, k);
                let q = choose|q: int| 0 <= q < p.len() && p[q] == k;
                assert(out@[q] == x);
            }
        }
        assert(out@.to_set() =~= ids@.to_set());
    }
    out
}

/// As many different members as a set has are all of them.
proof fn lemma_all_there(ids: Seq<NodeId>, set: Set<NodeId>)
    requires
        set.finite(),
        ids.no_duplicates(),
        ids.len() == set.len(),
        forall|i: int| 0 <= i < ids.len() ==> set.contains(#[trigger] ids[i]),
    ensures
        ids.to_set() == set,
{
    ids.unique_seq_to_set();
    assert forall|x: NodeId| ids.to_set().contains(x) implies set.contains(x) by {
        assert(ids.contains(x));
    }
    vstd::set_lib::lemma_subset_equality(ids.to_set(), set);
}

/// The keys of a map in order.
pub(crate) fn sorted_keys<V>(map: &HashMap<NodeId, V>) -> (r: Vec<NodeId>)
    ensures
        r@ == ids_in(map@.dom()),
        is_ascending(r@),
        r@.to_set() == map@.dom(),
{
    let mut ids: Vec<NodeId> = Vec::new();
    for k in it: map.keys()
        invariant
            it.seq().unref().to_set() == map@.dom(),
            it.seq().no_duplicates(),
            it.seq().len() == map@.dom().len(),
            forall|i: int| 0 <= i < ids@.len() ==> map@.dom().contains(#[trigger] ids@[i]),
            ids@.no_duplicates(),
            ids@.len() == it.index(),
            forall|i: int| 0 <= i < ids@.len() ==> #[trigger] ids@[i] == *it.seq()[i],
    {
        proof {
            let at = it.index() as int;
            assert(it.seq().unref()[at] == *it.seq()[at]);
            assert(it.seq().unref().to_set().contains(*k));
        }
        ids.push(*k);
    }
    proof {
        lemma_all_there(ids@, map@.dom());
    }
    let r = sort_ids(&ids);
    proof {
        lemma_ids_in(r@, map@.dom());
    }
    r
}

/// The members of a set in order.
pub(crate) fn sorted_set(set: &HashSet<NodeId>) -> (r: Vec<NodeId>)
    ensures
        r@ == ids_in(set@),
        is_ascending(r@),
        r@.to_set() == set@,
{
    let mut ids: Vec<NodeId> = Vec::new();
    for k in it: set.iter()
        invariant
            it.seq().unref().to_set() == set@,
            it.seq().no_duplicates(),
            it.seq().len() == set@.len(),
            forall|i: int| 0 <= i < ids@.len() ==> set@.contains(#[trigger] ids@[i]),
            ids@.no_duplicates(),
            ids@.len() == it.index(),
            forall|i: int| 0 <= i < ids@.len() ==> #[trigger] ids@[i] == *it.seq()[i],
    {
        proof {
            let at = it.index() as int;
            assert(it.seq().unref()[at] == *it.seq()[at]);
            assert(it.seq().unref().to_set().contains(*k));
        }
        ids.push(*k);
    }
    proof {
        lemma_all_there(ids@, set@);
    }
    let r = sort_ids(&ids);
    proof {
        lemma_ids_in(r@, set@);
    }
    r
}

} // verus!
