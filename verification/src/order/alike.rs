//! Finding things that have the same key.

use vstd::prelude::*;

use crate::order::{
    comes_first, ints, is_order, lemma_order_complete, lemma_order_distinct, lemma_order_unique,
    stable_order, Ranked,
};

verus! {

pub open spec fn same_key<K: Ranked>(keys: Seq<K>, a: int, b: int) -> bool {
    keys[a].at_most(&keys[b]) && keys[b].at_most(&keys[a])
}

/// Whether another item has the same key as the one at `i`.
pub open spec fn has_twin<K: Ranked>(keys: Seq<K>, i: int) -> bool {
    exists|j: int| 0 <= j < keys.len() && j != i && #[trigger] same_key(keys, i, j)
}

/// The stable order of some keys.
pub open spec fn order_of<K: Ranked>(keys: Seq<K>) -> Seq<int> {
    choose|p: Seq<int>| is_order(keys, p)
}

pub proof fn lemma_order_of<K: Ranked>(keys: Seq<K>, p: Seq<int>)
    requires
        is_order(keys, p),
    ensures
        p == order_of(keys),
{
    lemma_order_unique(keys, p, order_of(keys));
}

/// The first place, from `k` on, whose key is not at most `key`.
spec fn place_for<K: Ranked>(keys: Seq<K>, p: Seq<int>, key: K, k: int) -> int
    decreases p.len() - k,
{
    if k < 0 || k >= p.len() || !keys[p[k]].at_most(&key) {
        k
    } else {
        place_for(keys, p, key, k + 1)
    }
}

proof fn lemma_place_for<K: Ranked>(keys: Seq<K>, p: Seq<int>, key: K, k: int)
    requires
        0 <= k <= p.len(),
    ensures
        k <= place_for(keys, p, key, k) <= p.len(),
        forall|j: int|
            k <= j < place_for(keys, p, key, k) ==> keys[#[trigger] p[j]].at_most(&key),
        place_for(keys, p, key, k) < p.len() ==> !keys[p[place_for(keys, p, key, k)]].at_most(&key),
    decreases p.len() - k,
{
    if k < p.len() && keys[p[k]].at_most(&key) {
        lemma_place_for(keys, p, key, k + 1);
    }
}

/// Any keys have an order.
pub proof fn lemma_order_exists<K: Ranked>(keys: Seq<K>)
    ensures
        is_order(keys, order_of(keys)),
    decreases keys.len(),
{
    if keys.len() == 0 {
        assert(is_order(keys, Seq::<int>::empty()));
    } else {
        let n = keys.len() - 1;
        let less = keys.drop_last();
        let key = keys[n];
        lemma_order_exists(less);
        let p = order_of(less);
        let k = place_for(keys, p, key, 0);
        lemma_place_for(keys, p, key, 0);
        let q = p.insert(k, n);
        assert forall|i: int| 0 <= i < q.len() implies 0 <= #[trigger] q[i] < keys.len() by {
            if i < k {
                assert(q[i] == p[i]);
            } else if i > k {
                assert(q[i] == p[i - 1]);
            }
        }
        assert forall|i: int, j: int| 0 <= i < j < q.len() implies comes_first(
            keys,
            #[trigger] q[i],
            #[trigger] q[j],
        ) by {
            let a = if i < k {
                i
            } else {
                i - 1
            };
            let b = if j < k {
                j
            } else {
                j - 1
            };
            if i == k {
                assert(q[j] == p[b]);
                assert(0 <= p[b] < less.len());
                if keys[p[b]].at_most(&key) && k < b {
                    assert(comes_first(less, p[k], p[b]));
                    assert(0 <= p[k] < less.len());
                    K::transitive(&keys[p[k]], &keys[p[b]], &key);
                }
                K::total(&key, &keys[p[b]]);
            } else if j == k {
                assert(q[i] == p[a]);
                assert(0 <= p[a] < less.len());
            } else {
                assert(q[i] == p[a] && q[j] == p[b]);
                assert(comes_first(less, p[a], p[b]));
                assert(0 <= p[a] < less.len() && 0 <= p[b] < less.len());
            }
        }
        assert(is_order(keys, q));
    }
}

fn is_same<K: Ranked>(keys: &Vec<K>, a: usize, b: usize) -> (r: bool)
    requires
        a < keys@.len(),
        b < keys@.len(),
    ensures
        r == same_key(keys@, a as int, b as int),
{
    keys[a].is_at_most(&keys[b]) && keys[b].is_at_most(&keys[a])
}

/// Whatever stands between two equal keys is equal to them.
proof fn lemma_between<K: Ranked>(keys: Seq<K>, p: Seq<int>, a: int, m: int, b: int)
    requires
        is_order(keys, p),
        0 <= a <= m <= b < p.len(),
        same_key(keys, p[a], p[b]),
    ensures
        same_key(keys, p[a], p[m]),
        same_key(keys, p[m], p[b]),
{
    if a < m {
        assert(comes_first(keys, p[a], p[m]));
    }
    if m < b {
        assert(comes_first(keys, p[m], p[b]));
    }
    K::total(&keys[p[a]], &keys[p[a]]);
    K::total(&keys[p[b]], &keys[p[b]]);
    K::transitive(&keys[p[m]], &keys[p[b]], &keys[p[a]]);
    K::transitive(&keys[p[b]], &keys[p[a]], &keys[p[m]]);
}

/// Whether the item at position `q` of an order is next to one with the same key, as far as the
/// first `n` positions show.
spec fn paired<K: Ranked>(keys: Seq<K>, p: Seq<int>, q: int, n: int) -> bool {
    (0 < q < n && same_key(keys, p[q - 1], p[q])) || (0 <= q && q + 1 < n && same_key(
        keys,
        p[q],
        p[q + 1],
    ))
}

proof fn lemma_paired<K: Ranked>(keys: Seq<K>, p: Seq<int>, q: int)
    requires
        is_order(keys, p),
        0 <= q < p.len(),
    ensures
        paired(keys, p, q, p.len() as int) == has_twin(keys, p[q]),
{
    let n = p.len() as int;
    lemma_order_distinct(keys, p);
    if paired(keys, p, q, n) {
        if 0 < q < n && same_key(keys, p[q - 1], p[q]) {
            assert(same_key(keys, p[q], p[q - 1]));
            assert(p[q] != p[q - 1]);
        } else {
            assert(same_key(keys, p[q], p[q + 1]));
            assert(p[q] != p[q + 1]);
        }
    }
    if has_twin(keys, p[q]) {
        let j = choose|j: int| 0 <= j < keys.len() && j != p[q] && #[trigger] same_key(keys, p[q], j);
        lemma_order_complete(keys, p, j);
        let k = choose|k: int| 0 <= k < p.len() && p[k] == j;
        if k < q {
            assert(same_key(keys, p[k], p[q]));
            lemma_between(keys, p, k, q - 1, q);
        } else {
            lemma_between(keys, p, q, q + 1, k);
        }
    }
}

/// For each item, whether another has the same key.
pub fn twins<K: Ranked>(keys: &Vec<K>) -> (r: Vec<bool>)
    ensures
        r@.len() == keys@.len(),
        forall|i: int| 0 <= i < r@.len() ==> #[trigger] r@[i] == has_twin(keys@, i),
{
    let order = stable_order(keys);
    let ghost p = ints(order@);
    let n: usize = keys.len();
    let mut marks: Vec<bool> = Vec::new();
    let mut i: usize = 0;
    while i < n
        invariant
            i <= n,
            marks@.len() == i,
            forall|k: int| 0 <= k < i ==> !#[trigger] marks@[k],
        decreases n - i,
    {
        marks.push(false);
        i += 1;
    }
    let mut at: usize = 1;
    proof {
        lemma_order_distinct(keys@, p);
        assert forall|q: int| 0 <= q < p.len() implies marks@[#[trigger] p[q]] == paired(
            keys@,
            p,
            q,
            1,
        ) by {}
    }
    while at < n
        invariant
            1 <= at,
            n == keys@.len(),
            at <= n || n == 0,
            marks@.len() == n,
            order@.len() == n,
            p == ints(order@),
            is_order(keys@, p),
            p.no_duplicates(),
            forall|q: int|
                0 <= q < p.len() ==> marks@[#[trigger] p[q]] == paired(keys@, p, q, at as int),
        decreases n - at,
    {
        let a: usize = order[at - 1];
        let b: usize = order[at];
        let ghost before = marks@;
        proof {
            assert(p[at - 1] == a);
            assert(p[at as int] == b);
        }
        if is_same(keys, a, b) {
            marks.set(a, true);
            marks.set(b, true);
        }
        proof {
            assert forall|q: int| 0 <= q < p.len() implies marks@[#[trigger] p[q]] == paired(
                keys@,
                p,
                q,
                at + 1,
            ) by {
                assert(before[p[q]] == paired(keys@, p, q, at as int));
                if q != at && q != at - 1 {
                    assert(p[q] != p[at as int]);
                    assert(p[q] != p[at - 1]);
                }
            }
        }
        at += 1;
    }
    proof {
        assert forall|i: int| 0 <= i < marks@.len() implies #[trigger] marks@[i] == has_twin(
            keys@,
            i,
        ) by {
            lemma_order_complete(keys@, p, i);
            let q = choose|q: int| 0 <= q < p.len() && p[q] == i;
            lemma_paired(keys@, p, q);
            assert(marks@[p[q]] == paired(keys@, p, q, at as int));
        }
    }
    marks
}

/// Where the run of equal keys that starts at position `s` ends, of which the positions before `e`
/// are known to belong to it.
pub open spec fn run_end<K: Ranked>(keys: Seq<K>, p: Seq<int>, s: int, e: int) -> int
    decreases p.len() - e,
{
    if e < p.len() && same_key(keys, p[s], p[e]) {
        run_end(keys, p, s, e + 1)
    } else {
        e
    }
}

/// The runs of equal keys from position `s` on, but for those of one.
pub open spec fn runs<K: Ranked>(keys: Seq<K>, p: Seq<int>, s: int) -> Seq<Seq<int>>
    decreases p.len() - s,
{
    if s < 0 || s >= p.len() {
        Seq::empty()
    } else {
        let e = run_end(keys, p, s, s + 1);
        if e <= s || e > p.len() {
            Seq::empty()
        } else if e - s > 1 {
            seq![p.subrange(s, e)] + runs(keys, p, e)
        } else {
            runs(keys, p, e)
        }
    }
}

/// The groups of items that have the same key: in key order, each in the order its items stand in,
/// and none of a single item.
pub open spec fn groups_of<K: Ranked>(keys: Seq<K>) -> Seq<Seq<int>> {
    runs(keys, order_of(keys), 0)
}

proof fn lemma_run_end<K: Ranked>(keys: Seq<K>, p: Seq<int>, s: int, e: int)
    requires
        0 <= s < e <= p.len(),
        forall|k: int| s < k < e ==> same_key(keys, p[s], #[trigger] p[k]),
    ensures
        e <= run_end(keys, p, s, e) <= p.len(),
        forall|k: int|
            s < k < run_end(keys, p, s, e) ==> same_key(keys, p[s], #[trigger] p[k]),
        run_end(keys, p, s, e) < p.len() ==> !same_key(
            keys,
            p[s],
            p[run_end(keys, p, s, e)],
        ),
    decreases p.len() - e,
{
    if e < p.len() && same_key(keys, p[s], p[e]) {
        lemma_run_end(keys, p, s, e + 1);
    }
}

/// Puts items with the same key together.
pub fn group<K: Ranked>(keys: &Vec<K>) -> (r: Vec<Vec<usize>>)
    ensures
        r@.map_values(|g: Vec<usize>| ints(g@)) == groups_of(keys@),
        is_order(keys@, order_of(keys@)),
{
    let order = stable_order(keys);
    let ghost p = ints(order@);
    proof {
        lemma_order_of(keys@, p);
    }
    let n: usize = order.len();
    let mut out: Vec<Vec<usize>> = Vec::new();
    let mut s: usize = 0;
    proof {
        assert(out@.map_values(|g: Vec<usize>| ints(g@)) + runs(keys@, p, 0) =~= groups_of(keys@));
    }
    while s < n
        invariant
            s <= n,
            n == order@.len(),
            n == keys@.len(),
            p == ints(order@),
            p.len() == n,
            forall|i: int| 0 <= i < n ==> (#[trigger] order@[i]) < n,
            out@.map_values(|g: Vec<usize>| ints(g@)) + runs(keys@, p, s as int) == groups_of(
                keys@,
            ),
        decreases n - s,
    {
        let mut run: Vec<usize> = Vec::new();
        run.push(order[s]);
        let mut e: usize = s + 1;
        while e < n && is_same(keys, order[s], order[e])
            invariant
                s < e <= n,
                n == order@.len(),
                n == keys@.len(),
                p == ints(order@),
                p.len() == n,
                forall|i: int| 0 <= i < n ==> (#[trigger] order@[i]) < n,
                run@ == order@.subrange(s as int, e as int),
                run_end(keys@, p, s as int, s + 1) == run_end(keys@, p, s as int, e as int),
            decreases n - e,
        {
            run.push(order[e]);
            e += 1;
        }
        proof {
            assert(e == run_end(keys@, p, s as int, s + 1));
            assert(ints(run@) =~= p.subrange(s as int, e as int));
        }
        let ghost before = out@.map_values(|g: Vec<usize>| ints(g@));
        if e - s > 1 {
            out.push(run);
            proof {
                assert(out@.map_values(|g: Vec<usize>| ints(g@)) =~= before.push(ints(run@)));
            }
        }
        proof {
            assert(out@.map_values(|g: Vec<usize>| ints(g@)) + runs(keys@, p, e as int)
                =~= before + runs(keys@, p, s as int));
        }
        s = e;
    }
    proof {
        assert(out@.map_values(|g: Vec<usize>| ints(g@)) =~= groups_of(keys@));
    }
    out
}

/// Whether a group is a stretch of an order whose keys are all the same.
pub open spec fn is_stretch<K: Ranked>(keys: Seq<K>, p: Seq<int>, g: Seq<int>, a: int, b: int) -> bool {
    &&& 0 <= a
    &&& a + 1 < b <= p.len()
    &&& g == p.subrange(a, b)
    &&& forall|k: int| a <= k < b ==> same_key(keys, p[a], #[trigger] p[k])
}

proof fn lemma_runs_alike<K: Ranked>(keys: Seq<K>, p: Seq<int>, s: int, i: int)
    requires
        0 <= s,
        0 <= i < runs(keys, p, s).len(),
    ensures
        exists|a: int, b: int| is_stretch(keys, p, runs(keys, p, s)[i], a, b),
    decreases p.len() - s,
{
    let e = run_end(keys, p, s, s + 1);
    lemma_run_end(keys, p, s, s + 1);
    if e - s > 1 {
        if i == 0 {
            K::total(&keys[p[s]], &keys[p[s]]);
            assert(is_stretch(keys, p, runs(keys, p, s)[0], s, e));
        } else {
            lemma_runs_alike(keys, p, e, i - 1);
            assert(runs(keys, p, s)[i] == runs(keys, p, e)[i - 1]);
        }
    } else {
        lemma_runs_alike(keys, p, e, i);
    }
}

/// Every group holds two items at least, none twice, and all of its items have the same key.
pub proof fn law_groups_are_alike<K: Ranked>(keys: Seq<K>, i: int)
    requires
        0 <= i < groups_of(keys).len(),
    ensures
        groups_of(keys)[i].len() > 1,
        groups_of(keys)[i].no_duplicates(),
        forall|a: int|
            0 <= a < groups_of(keys)[i].len() ==> 0 <= #[trigger] groups_of(keys)[i][a]
                < keys.len(),
        forall|a: int, b: int|
            0 <= a < groups_of(keys)[i].len() && 0 <= b < groups_of(keys)[i].len() ==> same_key(
                keys,
                #[trigger] groups_of(keys)[i][a],
                #[trigger] groups_of(keys)[i][b],
            ),
{
    let p = order_of(keys);
    lemma_order_exists(keys);
    lemma_order_distinct(keys, p);
    lemma_runs_alike(keys, p, 0, i);
    let g = groups_of(keys)[i];
    let (s, e) = choose|a: int, b: int| is_stretch(keys, p, g, a, b);
    assert forall|a: int, b: int| 0 <= a < g.len() && 0 <= b < g.len() implies same_key(
        keys,
        #[trigger] g[a],
        #[trigger] g[b],
    ) by {
        assert(g[a] == p[s + a]);
        assert(g[b] == p[s + b]);
        K::transitive(&keys[p[s + a]], &keys[p[s]], &keys[p[s + b]]);
        K::transitive(&keys[p[s + b]], &keys[p[s]], &keys[p[s + a]]);
    }
    assert forall|a: int, b: int| 0 <= a < g.len() && 0 <= b < g.len() && a != b implies g[a]
        != g[b] by {
        assert(g[a] == p[s + a]);
        assert(g[b] == p[s + b]);
    }
}

proof fn lemma_runs_complete<K: Ranked>(keys: Seq<K>, p: Seq<int>, s: int, a: int, b: int)
    requires
        is_order(keys, p),
        0 <= s <= a < b < p.len(),
        same_key(keys, p[a], p[b]),
    ensures
        exists|i: int|
            0 <= i < runs(keys, p, s).len() && (#[trigger] runs(keys, p, s)[i]).contains(p[a])
                && runs(keys, p, s)[i].contains(p[b]),
    decreases p.len() - s,
{
    let e = run_end(keys, p, s, s + 1);
    lemma_run_end(keys, p, s, s + 1);
    if a >= e {
        lemma_runs_complete(keys, p, e, a, b);
        let i = choose|i: int|
            0 <= i < runs(keys, p, e).len() && (#[trigger] runs(keys, p, e)[i]).contains(p[a])
                && runs(keys, p, e)[i].contains(p[b]);
        if e - s > 1 {
            assert(runs(keys, p, s)[i + 1] == runs(keys, p, e)[i]);
        } else {
            assert(runs(keys, p, s)[i] == runs(keys, p, e)[i]);
        }
    } else {
        if b >= e {
            lemma_between(keys, p, a, e, b);
            if s < a {
                assert(same_key(keys, p[s], p[a]));
                K::transitive(&keys[p[s]], &keys[p[a]], &keys[p[e]]);
                K::transitive(&keys[p[e]], &keys[p[a]], &keys[p[s]]);
            }
        }
        let g = p.subrange(s, e);
        assert(runs(keys, p, s)[0] == g);
        assert(g[a - s] == p[a]);
        assert(g[b - s] == p[b]);
    }
}

/// Items with the same key are in a group together.
pub proof fn law_alike_are_grouped<K: Ranked>(keys: Seq<K>, x: int, y: int)
    requires
        0 <= x < keys.len(),
        0 <= y < keys.len(),
        x != y,
        same_key(keys, x, y),
    ensures
        exists|i: int|
            0 <= i < groups_of(keys).len() && (#[trigger] groups_of(keys)[i]).contains(x)
                && groups_of(keys)[i].contains(y),
{
    let p = order_of(keys);
    lemma_order_exists(keys);
    lemma_order_complete(keys, p, x);
    lemma_order_complete(keys, p, y);
    let a = choose|a: int| 0 <= a < p.len() && p[a] == x;
    let b = choose|b: int| 0 <= b < p.len() && p[b] == y;
    if a < b {
        lemma_runs_complete(keys, p, 0, a, b);
        let i = choose|i: int|
            0 <= i < runs(keys, p, 0).len() && (#[trigger] runs(keys, p, 0)[i]).contains(p[a])
                && runs(keys, p, 0)[i].contains(p[b]);
        assert(groups_of(keys)[i].contains(x));
    } else {
        assert(same_key(keys, p[b], p[a]));
        lemma_runs_complete(keys, p, 0, b, a);
        let i = choose|i: int|
            0 <= i < runs(keys, p, 0).len() && (#[trigger] runs(keys, p, 0)[i]).contains(p[b])
                && runs(keys, p, 0)[i].contains(p[a]);
        assert(groups_of(keys)[i].contains(x));
    }
}

} // verus!
