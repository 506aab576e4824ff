//! A disk as the laws speak of it: what is there, and by which names it is reached.

use vstd::prelude::*;

use crate::exec::is_same;
use crate::plan::{EntryKind, Ident};
use crate::stat::Stat;

verus! {

/// What is on a disk, by the names on the way there.
#[verifier::ext_equal]
pub struct Disk {
    pub held: Map<Seq<Seq<u8>>, Stat>,
}

/// Whether the way `p` leads to what `w` leads to, or to something below it.
pub open spec fn is_under(p: Seq<Seq<u8>>, w: Seq<Seq<u8>>) -> bool {
    w.len() <= p.len() && p.take(w.len() as int) == w
}

/// What is at the end of `w` and below it, by the names from there on.
pub open spec fn tree(d: Disk, w: Seq<Seq<u8>>) -> Map<Seq<Seq<u8>>, Stat> {
    Map::new(|r: Seq<Seq<u8>>| d.held.contains_key(w + r), |r: Seq<Seq<u8>>| d.held[w + r])
}

/// What is at the end of a way, if anything.
pub open spec fn top_of(tree: Map<Seq<Seq<u8>>, Stat>) -> Option<Stat> {
    if tree.contains_key(Seq::empty()) {
        Some(tree[Seq::empty()])
    } else {
        None
    }
}

pub open spec fn is_dir(stat: Stat) -> bool {
    Ident::spec_of(stat).kind == EntryKind::Dir
}

/// Whether whatever is in a tree is in a directory of it.
#[verifier::opaque]
pub open spec fn is_closed(tree: Map<Seq<Seq<u8>>, Stat>) -> bool {
    forall|r: Seq<Seq<u8>>| #[trigger]
        tree.contains_key(r) && r.len() > 0 ==> tree.contains_key(r.drop_last()) && is_dir(
            tree[r.drop_last()],
        )
}

/// Whether an entry is the one it was, and takes up what it took up. Its times may have moved.
pub open spec fn is_kept(a: Stat, b: Stat) -> bool {
    is_same(a, b) && a.spec_disk() == b.spec_disk()
}

/// Whether a tree is what may be left of another: less of it, with nothing out of its directory.
pub open spec fn is_left(a: Map<Seq<Seq<u8>>, Stat>, b: Map<Seq<Seq<u8>>, Stat>) -> bool {
    &&& is_closed(b)
    &&& forall|r: Seq<Seq<u8>>| #[trigger]
        b.contains_key(r) ==> a.contains_key(r) && is_kept(a[r], b[r])
}

/// Whether an entry is a copy of another: it is of the same kind, and of the same length where it is
/// a file.
pub open spec fn is_like(a: Stat, b: Stat) -> bool {
    let x = Ident::spec_of(a);
    let y = Ident::spec_of(b);
    x.kind == y.kind && (x.kind == EntryKind::File ==> x.size == y.size)
}

/// Whether a tree is a whole copy of another: an entry for each, and a copy of it.
pub open spec fn is_copy(a: Map<Seq<Seq<u8>>, Stat>, b: Map<Seq<Seq<u8>>, Stat>) -> bool {
    &&& a.dom() == b.dom()
    &&& forall|r: Seq<Seq<u8>>| #[trigger] b.contains_key(r) ==> is_like(a[r], b[r])
}

/// A tree as it is removed: by the names on the way, its own first, with whether each entry is a
/// directory and what it takes up.
pub open spec fn held(tree: Map<Seq<Seq<u8>>, Stat>, name: Seq<u8>) -> Map<
    Seq<Seq<u8>>,
    (bool, u64),
> {
    Map::new(
        |q: Seq<Seq<u8>>| q.len() > 0 && q[0] == name && tree.contains_key(q.drop_first()),
        |q: Seq<Seq<u8>>| (is_dir(tree[q.drop_first()]), tree[q.drop_first()].spec_disk()),
    )
}

/// Whether two disks differ at most in what these ways lead to, and in the times of the directories
/// around them.
#[verifier::opaque]
pub open spec fn is_elsewhere_same(a: Disk, b: Disk, ways: Set<Seq<Seq<u8>>>) -> bool {
    &&& forall|p: Seq<Seq<u8>>|
        #![trigger b.held.contains_key(p)]
        #![trigger b.held[p]]
        !is_touched(p, ways) ==> {
            &&& a.held.contains_key(p) == b.held.contains_key(p)
            &&& a.held.contains_key(p) ==> {
                ||| a.held[p] == b.held[p]
                ||| is_around(p, ways) && is_dir(a.held[p]) && is_same(a.held[p], b.held[p])
            }
        }
}

/// Whether two disks hold the same: the same names, each leading to an entry of the same kind, and of
/// the same length where it is a file.
pub open spec fn is_alike(a: Disk, b: Disk) -> bool {
    is_copy(a.held, b.held)
}

/// Whether one of these ways leads to `p`, or to something it is below.
pub open spec fn is_touched(p: Seq<Seq<u8>>, ways: Set<Seq<Seq<u8>>>) -> bool {
    exists|w: Seq<Seq<u8>>| #[trigger] ways.contains(w) && is_under(p, w)
}

/// Whether `p` is the directory that one of these ways ends in.
pub open spec fn is_around(p: Seq<Seq<u8>>, ways: Set<Seq<Seq<u8>>>) -> bool {
    exists|w: Seq<Seq<u8>>| #[trigger] ways.contains(w) && w.len() > 0 && p == w.drop_last()
}

pub proof fn lemma_elsewhere_same(a: Disk, b: Disk, c: Disk, ways: Set<Seq<Seq<u8>>>)
    requires
        is_elsewhere_same(a, b, ways),
        is_elsewhere_same(b, c, ways),
    ensures
        is_elsewhere_same(a, c, ways),
{
    reveal(is_elsewhere_same);
    assert forall|p: Seq<Seq<u8>>|
        #![trigger c.held.contains_key(p)]
        #![trigger c.held[p]]
        !is_touched(p, ways) implies {
        &&& a.held.contains_key(p) == c.held.contains_key(p)
        &&& a.held.contains_key(p) ==> {
            ||| a.held[p] == c.held[p]
            ||| is_around(p, ways) && is_dir(a.held[p]) && is_same(a.held[p], c.held[p])
        }
    } by {
        assert(b.held.contains_key(p) == b.held.contains_key(p));
        assert(c.held.contains_key(p) == c.held.contains_key(p));
    }
}

pub proof fn lemma_is_left(
    a: Map<Seq<Seq<u8>>, Stat>,
    b: Map<Seq<Seq<u8>>, Stat>,
    c: Map<Seq<Seq<u8>>, Stat>,
)
    requires
        is_left(a, b),
        is_left(b, c),
    ensures
        is_left(a, c),
{
    assert forall|r: Seq<Seq<u8>>| #[trigger] c.contains_key(r) implies a.contains_key(r)
        && is_kept(a[r], c[r]) by {
        assert(b.contains_key(r));
    }
}

/// Ways more may be different where fewer are.
pub proof fn lemma_elsewhere_wider(
    a: Disk,
    b: Disk,
    ways: Set<Seq<Seq<u8>>>,
    more: Set<Seq<Seq<u8>>>,
)
    requires
        is_elsewhere_same(a, b, ways),
        ways.subset_of(more),
    ensures
        is_elsewhere_same(a, b, more),
{
    reveal(is_elsewhere_same);
    assert forall|p: Seq<Seq<u8>>|
        #![trigger b.held.contains_key(p)]
        #![trigger b.held[p]]
        !is_touched(p, more) implies {
        &&& a.held.contains_key(p) == b.held.contains_key(p)
        &&& a.held.contains_key(p) ==> {
            ||| a.held[p] == b.held[p]
            ||| is_around(p, more) && is_dir(a.held[p]) && is_same(a.held[p], b.held[p])
        }
    } by {
        if is_touched(p, ways) {
            let w = choose|w: Seq<Seq<u8>>| #[trigger] ways.contains(w) && is_under(p, w);
            assert(more.contains(w));
        }
        assert(b.held.contains_key(p) == b.held.contains_key(p));
        if is_around(p, ways) {
            let w = choose|w: Seq<Seq<u8>>| #[trigger]
                ways.contains(w) && w.len() > 0 && p == w.drop_last();
            assert(more.contains(w));
        }
    }
}

pub proof fn lemma_is_copy(
    a: Map<Seq<Seq<u8>>, Stat>,
    b: Map<Seq<Seq<u8>>, Stat>,
    c: Map<Seq<Seq<u8>>, Stat>,
)
    requires
        is_copy(a, b),
        is_copy(b, c),
    ensures
        is_copy(a, c),
{
    assert forall|r: Seq<Seq<u8>>| #[trigger] c.contains_key(r) implies b.contains_key(r) by {
        assert(c.dom().contains(r));
        assert(b.dom().contains(r));
    }
}

/// Of a tree that is not there, nothing is out of its directory.
pub proof fn lemma_nothing_is_left(a: Map<Seq<Seq<u8>>, Stat>)
    ensures
        is_closed(Map::<Seq<Seq<u8>>, Stat>::empty()),
        is_left(a, Map::<Seq<Seq<u8>>, Stat>::empty()),
{
    reveal(is_closed);
}

} // verus!
