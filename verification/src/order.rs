//! Stable ordering by key.

pub mod alike;

use vstd::prelude::*;

verus! {

/// A key that things are put in order by.
pub trait Ranked: Sized {
    /// Whether `self` may stand before `other`.
    spec fn at_most(&self, other: &Self) -> bool;

    proof fn total(a: &Self, b: &Self)
        ensures
            a.at_most(b) || b.at_most(a),
    ;

    proof fn transitive(a: &Self, b: &Self, c: &Self)
        requires
            a.at_most(b),
            b.at_most(c),
        ensures
            a.at_most(c),
    ;

    fn is_at_most(&self, other: &Self) -> (r: bool)
        ensures
            r == self.at_most(other),
    ;
}

/// Whether the item at `a` comes before the one at `b`: by key, then by where it stood.
pub open spec fn comes_first<K: Ranked>(keys: Seq<K>, a: int, b: int) -> bool {
    keys[a].at_most(&keys[b]) && (keys[b].at_most(&keys[a]) ==> a < b)
}

/// Whether `p` lists every index of `keys` once, in key order, with equal keys left in the order
/// they came in.
pub open spec fn is_order<K: Ranked>(keys: Seq<K>, p: Seq<int>) -> bool {
    &&& p.len() == keys.len()
    &&& forall|i: int| 0 <= i < p.len() ==> 0 <= #[trigger] p[i] < keys.len()
    &&& forall|i: int, j: int|
        0 <= i < j < p.len() ==> comes_first(keys, #[trigger] p[i], #[trigger] p[j])
}

/// A run of indices in key order.
spec fn is_run<K: Ranked>(keys: Seq<K>, p: Seq<usize>) -> bool {
    &&& forall|i: int| 0 <= i < p.len() ==> (#[trigger] p[i]) < keys.len()
    &&& forall|i: int, j: int|
        0 <= i < j < p.len() ==> comes_first(keys, #[trigger] p[i] as int, #[trigger] p[j] as int)
}

proof fn lemma_first_transitive<K: Ranked>(keys: Seq<K>, a: int, b: int, c: int)
    requires
        comes_first(keys, a, b),
        comes_first(keys, b, c),
    ensures
        comes_first(keys, a, c),
{
    K::transitive(&keys[a], &keys[b], &keys[c]);
    if keys[c].at_most(&keys[a]) {
        K::transitive(&keys[c], &keys[a], &keys[b]);
        K::transitive(&keys[b], &keys[c], &keys[a]);
    }
}

/// Puts two ordered runs together. Everything in `a` stood before everything in `b`.
fn merge<K: Ranked>(keys: &Vec<K>, a: &Vec<usize>, b: &Vec<usize>) -> (r: Vec<usize>)
    requires
        is_run(keys@, a@),
        is_run(keys@, b@),
        forall|i: int, j: int|
            0 <= i < a@.len() && 0 <= j < b@.len() ==> #[trigger] a@[i] < #[trigger] b@[j],
        a@.len() + b@.len() <= usize::MAX,
    ensures
        is_run(keys@, r@),
        r@.len() == a@.len() + b@.len(),
        forall|i: int| 0 <= i < r@.len() ==> a@.contains(#[trigger] r@[i]) || b@.contains(r@[i]),
{
    let mut out: Vec<usize> = Vec::new();
    let mut i: usize = 0;
    let mut j: usize = 0;
    while i < a.len() || j < b.len()
        invariant
            i <= a@.len(),
            j <= b@.len(),
            a@.len() + b@.len() <= usize::MAX,
            out@.len() == i + j,
            is_run(keys@, a@),
            is_run(keys@, b@),
            is_run(keys@, out@),
            forall|x: int, y: int|
                0 <= x < a@.len() && 0 <= y < b@.len() ==> #[trigger] a@[x] < #[trigger] b@[y],
            forall|x: int|
                0 <= x < out@.len() ==> a@.contains(#[trigger] out@[x]) || b@.contains(out@[x]),
            forall|x: int, y: int|
                0 <= x < out@.len() && i <= y < a@.len() ==> comes_first(
                    keys@,
                    #[trigger] out@[x] as int,
                    #[trigger] a@[y] as int,
                ),
            forall|x: int, y: int|
                0 <= x < out@.len() && j <= y < b@.len() ==> comes_first(
                    keys@,
                    #[trigger] out@[x] as int,
                    #[trigger] b@[y] as int,
                ),
        decreases a.len() - i + b.len() - j,
    {
        let ghost before = out@;
        let take_a = if i >= a.len() {
            false
        } else if j >= b.len() {
            true
        } else {
            keys[a[i]].is_at_most(&keys[b[j]])
        };
        if take_a {
            out.push(a[i]);
            proof {
                let v = a@[i as int];
                assert forall|y: int| j <= y < b@.len() implies comes_first(
                    keys@,
                    v as int,
                    #[trigger] b@[y] as int,
                ) by {
                    assert(comes_first(keys@, v as int, b@[j as int] as int));
                    if y > j {
                        lemma_first_transitive(keys@, v as int, b@[j as int] as int, b@[y] as int);
                    }
                }
                assert(a@.contains(v));
            }
            i += 1;
        } else {
            out.push(b[j]);
            proof {
                let v = b@[j as int];
                assert forall|y: int| i <= y < a@.len() implies comes_first(
                    keys@,
                    v as int,
                    #[trigger] a@[y] as int,
                ) by {
                    K::total(&keys@[a@[i as int] as int], &keys@[v as int]);
                    assert(comes_first(keys@, v as int, a@[i as int] as int));
                    if y > i {
                        lemma_first_transitive(keys@, v as int, a@[i as int] as int, a@[y] as int);
                    }
                }
                assert(b@.contains(v));
            }
            j += 1;
        }
        proof {
            assert forall|x: int| 0 <= x < out@.len() implies a@.contains(#[trigger] out@[x])
                || b@.contains(out@[x]) by {
                if x < before.len() {
                    assert(out@[x] == before[x]);
                }
            }
        }
    }
    out
}

fn sort_range<K: Ranked>(keys: &Vec<K>, from: usize, to: usize) -> (r: Vec<usize>)
    requires
        from <= to <= keys@.len(),
    ensures
        is_run(keys@, r@),
        r@.len() == to - from,
        forall|i: int| 0 <= i < r@.len() ==> from <= #[trigger] r@[i] < to,
    decreases to - from,
{
    if to - from == 0 {
        return Vec::new();
    }
    if to - from == 1 {
        let mut one: Vec<usize> = Vec::new();
        one.push(from);
        return one;
    }
    let mid: usize = from + (to - from) / 2;
    let a = sort_range(keys, from, mid);
    let b = sort_range(keys, mid, to);
    let r = merge(keys, &a, &b);
    proof {
        assert forall|i: int| 0 <= i < r@.len() implies from <= #[trigger] r@[i] < to by {
            if a@.contains(r@[i]) {
                let k = choose|k: int| 0 <= k < a@.len() && a@[k] == r@[i];
                assert(from <= a@[k] < mid);
            } else {
                let k = choose|k: int| 0 <= k < b@.len() && b@[k] == r@[i];
                assert(mid <= b@[k] < to);
            }
        }
    }
    r
}

/// The indices of a vector as a sequence of integers.
pub open spec fn ints(p: Seq<usize>) -> Seq<int> {
    p.map_values(|i: usize| i as int)
}

/// The order that puts `keys` in key order and leaves equal keys as they stood.
pub fn stable_order<K: Ranked>(keys: &Vec<K>) -> (r: Vec<usize>)
    ensures
        is_order(keys@, ints(r@)),
        r@.len() == keys@.len(),
        forall|i: int| 0 <= i < r@.len() ==> #[trigger] r@[i] < keys@.len(),
{
    let r = sort_range(keys, 0, keys.len());
    proof {
        assert forall|i: int, j: int| 0 <= i < j < r@.len() implies comes_first(
            keys@,
            #[trigger] ints(r@)[i],
            #[trigger] ints(r@)[j],
        ) by {
            assert(comes_first(keys@, r@[i] as int, r@[j] as int));
        }
    }
    r
}

/// An order holds no index twice.
pub proof fn lemma_order_distinct<K: Ranked>(keys: Seq<K>, p: Seq<int>)
    requires
        is_order(keys, p),
    ensures
        p.no_duplicates(),
{
    assert forall|i: int, j: int| 0 <= i < p.len() && 0 <= j < p.len() && i != j implies p[i]
        != p[j] by {
        if i < j {
            assert(comes_first(keys, p[i], p[j]));
        } else {
            assert(comes_first(keys, p[j], p[i]));
        }
    }
}

/// An order holds every index.
pub proof fn lemma_order_complete<K: Ranked>(keys: Seq<K>, p: Seq<int>, i: int)
    requires
        is_order(keys, p),
        0 <= i < keys.len(),
    ensures
        p.contains(i),
{
    lemma_order_distinct(keys, p);
    let all = vstd::set_lib::set_int_range(0, keys.len() as int);
    vstd::set_lib::lemma_int_range(0, keys.len() as int);
    p.unique_seq_to_set();
    assert(p.to_set().subset_of(all)) by {
        assert forall|x: int| p.to_set().contains(x) implies all.contains(x) by {
            assert(p.contains(x));
        }
    }
    vstd::set_lib::lemma_subset_equality(p.to_set(), all);
    assert(all.contains(i));
    assert(p.to_set().contains(i));
}

/// There is only one order for given keys.
pub proof fn lemma_order_unique<K: Ranked>(keys: Seq<K>, p: Seq<int>, q: Seq<int>)
    requires
        is_order(keys, p),
        is_order(keys, q),
    ensures
        p == q,
{
    assert forall|n: int| 0 <= n <= p.len() implies #[trigger] p.take(n) == q.take(n) by {
        lemma_order_agrees(keys, p, q, n);
    }
    assert(p.take(p.len() as int) == q.take(p.len() as int));
    assert(p =~= p.take(p.len() as int));
    assert(q =~= q.take(p.len() as int));
}

proof fn lemma_order_agrees<K: Ranked>(keys: Seq<K>, p: Seq<int>, q: Seq<int>, n: int)
    requires
        is_order(keys, p),
        is_order(keys, q),
        0 <= n <= p.len(),
    ensures
        p.take(n) == q.take(n),
    decreases n,
{
    if n > 0 {
        lemma_order_agrees(keys, p, q, n - 1);
        lemma_order_distinct(keys, p);
        lemma_order_distinct(keys, q);
        let a = p[n - 1];
        let b = q[n - 1];
        if a != b {
            lemma_order_complete(keys, q, a);
            lemma_order_complete(keys, p, b);
            let i = choose|i: int| 0 <= i < q.len() && q[i] == a;
            let j = choose|j: int| 0 <= j < p.len() && p[j] == b;
            if i < n - 1 {
                assert(q.take(n - 1)[i] == p.take(n - 1)[i]);
                assert(p[i] == p[n - 1]);
            }
            if j < n - 1 {
                assert(q.take(n - 1)[j] == p.take(n - 1)[j]);
                assert(q[j] == q[n - 1]);
            }
            assert(comes_first(keys, q[n - 1], q[i]));
            assert(comes_first(keys, p[n - 1], p[j]));
        }
        assert(p.take(n) =~= p.take(n - 1).push(a));
        assert(q.take(n) =~= q.take(n - 1).push(b));
    }
}

/// Whether `a` comes before `b`, or is `b`, byte by byte.
pub open spec fn bytes_at_most(a: Seq<u8>, b: Seq<u8>) -> bool
    decreases a.len(),
{
    if a.len() == 0 {
        true
    } else if b.len() == 0 {
        false
    } else {
        a[0] < b[0] || (a[0] == b[0] && bytes_at_most(a.drop_first(), b.drop_first()))
    }
}

/// Whether one name is spelled before another, or the same: it is where the other begins, or has
/// the smaller byte where they first differ.
pub open spec fn spells_before(a: Seq<u8>, b: Seq<u8>) -> bool {
    ||| a.len() <= b.len() && b.take(a.len() as int) == a
    ||| exists|k: int|
        0 <= k < a.len() && k < b.len() && #[trigger] a.take(k) == b.take(k) && a[k] < b[k]
}

/// Bytes are compared the way words are: the first that differ decide, and what is cut short comes
/// first.
pub proof fn law_bytes_are_compared_like_words(a: Seq<u8>, b: Seq<u8>)
    ensures
        bytes_at_most(a, b) == spells_before(a, b),
    decreases a.len(),
{
    if a.len() == 0 {
        assert(b.take(0) =~= a);
    } else if b.len() == 0 {
    } else {
        let (x, y) = (a.drop_first(), b.drop_first());
        law_bytes_are_compared_like_words(x, y);
        if a[0] < b[0] {
            assert(a.take(0) =~= b.take(0));
        } else if a[0] == b[0] {
            if spells_before(x, y) {
                if x.len() <= y.len() && y.take(x.len() as int) == x {
                    assert forall|i: int| 0 <= i < a.len() implies b[i] == a[i] by {
                        if i > 0 {
                            assert(y.take(x.len() as int)[i - 1] == x[i - 1]);
                        }
                    }
                    assert(b.take(a.len() as int) =~= a);
                } else {
                    let k = choose|k: int|
                        0 <= k < x.len() && k < y.len() && #[trigger] x.take(k) == y.take(k) && x[k]
                            < y[k];
                    assert forall|i: int| 0 <= i < k + 1 implies a[i] == b[i] by {
                        if i > 0 {
                            assert(x.take(k)[i - 1] == y.take(k)[i - 1]);
                        }
                    }
                    assert(a.take(k + 1) =~= b.take(k + 1));
                    assert(a[k + 1] < b[k + 1]);
                }
            }
            if spells_before(a, b) {
                if a.len() <= b.len() && b.take(a.len() as int) == a {
                    assert forall|i: int| 0 <= i < x.len() implies y[i] == x[i] by {
                        assert(b.take(a.len() as int)[i + 1] == a[i + 1]);
                    }
                    assert(y.take(x.len() as int) =~= x);
                } else {
                    let k = choose|k: int|
                        0 <= k < a.len() && k < b.len() && #[trigger] a.take(k) == b.take(k) && a[k]
                            < b[k];
                    assert(k > 0);
                    assert forall|i: int| 0 <= i < k - 1 implies x[i] == y[i] by {
                        assert(a.take(k)[i + 1] == b.take(k)[i + 1]);
                    }
                    assert(x.take(k - 1) =~= y.take(k - 1));
                    assert(x[k - 1] < y[k - 1]);
                }
            }
        } else {
            if spells_before(a, b) {
                if a.len() <= b.len() && b.take(a.len() as int) == a {
                    assert(b.take(a.len() as int)[0] == a[0]);
                } else {
                    let k = choose|k: int|
                        0 <= k < a.len() && k < b.len() && #[trigger] a.take(k) == b.take(k) && a[k]
                            < b[k];
                    if k > 0 {
                        assert(a.take(k)[0] == b.take(k)[0]);
                    }
                }
            }
        }
    }
}

pub proof fn lemma_bytes_total(a: Seq<u8>, b: Seq<u8>)
    ensures
        bytes_at_most(a, b) || bytes_at_most(b, a),
        bytes_at_most(a, b) && bytes_at_most(b, a) ==> a == b,
    decreases a.len(),
{
    if a.len() > 0 && b.len() > 0 {
        lemma_bytes_total(a.drop_first(), b.drop_first());
        if a[0] == b[0] && a.drop_first() == b.drop_first() {
            assert(a =~= seq![a[0]] + a.drop_first());
            assert(b =~= seq![b[0]] + b.drop_first());
        }
    } else {
        assert(a.len() == 0 && b.len() == 0 ==> a =~= b);
    }
}

pub proof fn lemma_bytes_transitive(a: Seq<u8>, b: Seq<u8>, c: Seq<u8>)
    requires
        bytes_at_most(a, b),
        bytes_at_most(b, c),
    ensures
        bytes_at_most(a, c),
    decreases a.len(),
{
    if a.len() > 0 && b.len() > 0 && c.len() > 0 && a[0] == b[0] && b[0] == c[0] {
        lemma_bytes_transitive(a.drop_first(), b.drop_first(), c.drop_first());
    }
}

pub fn is_bytes_at_most(a: &[u8], b: &[u8]) -> (r: bool)
    ensures
        r == bytes_at_most(a@, b@),
{
    let mut i: usize = 0;
    proof {
        assert(a@.skip(0) =~= a@);
        assert(b@.skip(0) =~= b@);
    }
    loop
        invariant
            i <= a@.len(),
            i <= b@.len(),
            bytes_at_most(a@, b@) == bytes_at_most(a@.skip(i as int), b@.skip(i as int)),
        decreases a.len() - i,
    {
        if i == a.len() {
            return true;
        }
        if i == b.len() {
            return false;
        }
        proof {
            assert(a@.skip(i as int).drop_first() =~= a@.skip(i + 1));
            assert(b@.skip(i as int).drop_first() =~= b@.skip(i + 1));
        }
        if a[i] < b[i] {
            return true;
        }
        if a[i] > b[i] {
            return false;
        }
        i += 1;
    }
}

/// A pair of numbers, compared first by the first.
#[derive(Clone, Copy, PartialEq, Eq, Structural)]
pub struct Rank {
    pub major: u64,
    pub minor: u64,
}

impl Ranked for Rank {
    open spec fn at_most(&self, other: &Self) -> bool {
        self.major < other.major || (self.major == other.major && self.minor <= other.minor)
    }

    proof fn total(a: &Self, b: &Self) {
    }

    proof fn transitive(a: &Self, b: &Self, c: &Self) {
    }

    fn is_at_most(&self, other: &Self) -> (r: bool) {
        self.major < other.major || (self.major == other.major && self.minor <= other.minor)
    }
}

} // verus!
