//! What is left of a tree that is written as a dump and read back: its shape, its names as far as
//! they are text, its times, and every size.

use vstd::prelude::*;
use vstd::utf8::encode_utf8;

use crate::export::ncdu::{
    apparent_of, disk_of, dump_parts, flat_dir, flat_from, is_built, is_dump_tree,
    law_own_sizes_are_written, own, parents_first, with_dir, with_item, Dump, Entry, Flat, Item,
    MAJOR, MAX_DEPTH,
};
use crate::model::grow::{
    apparent_weights, disk_weights, grown, root_model, takes, weight, Added, Model,
};
use crate::model::own::{chain_weight, lemma_parts};
use crate::model::{
    accounted, clipped, flags, is_kid, name_of, ones, same_but_links, weight_below, Kind, Node,
    NodeId, Tree, ROOT,
};
use crate::text::shown;

verus! {

/// Whether a record says of a node what is written of it. Why an entry was left out of a scan is
/// of no account here.
pub open spec fn says_item(item: Item, t: Tree, id: NodeId, name: Seq<char>) -> bool {
    let node = t.nodes()[id as int];
    let chain = t.kids()[id as int];
    &&& item.name@ == name
    &&& item.asize == own(node.apparent, apparent_of(t.nodes(), chain, chain.len() as int))
    &&& item.dsize == own(node.disk, disk_of(t.nodes(), chain, chain.len() as int))
    &&& item.mtime == node.mtime
    &&& item.notreg == (node.carries(flags::SYMLINK) || node.carries(flags::OTHER))
    &&& item.read_error == node.carries(flags::ERR)
    &&& !item.hlnkc
}

/// Whether an entry says of a directory what is written of it: itself, then its entries.
pub open spec fn says_dir(entry: Entry, t: Tree, id: NodeId, name: Seq<char>) -> bool
    decreases t.nodes().len() - id, 0int,
{
    let chain = t.kids()[id as int];
    &&& entry is Dir
    &&& entry->Dir_0@.len() == chain.len() + 1
    &&& entry->Dir_0@[0] is Item
    &&& says_item(entry->Dir_0@[0]->Item_0, t, id, name)
    &&& forall|j: int|
        0 <= j < chain.len() ==> {
            let c = #[trigger] t.kids()[id as int][j];
            id < c < t.nodes().len() ==> says(
                entry->Dir_0@[j + 1],
                t,
                c,
                shown(t.spec_name(c)),
            )
        }
}

/// Whether an entry says of a node what is written of it.
pub open spec fn says(entry: Entry, t: Tree, id: NodeId, name: Seq<char>) -> bool
    decreases t.nodes().len() - id, 1int,
{
    if t.nodes()[id as int].carries(flags::DIR) {
        says_dir(entry, t, id, name)
    } else {
        entry is Item && says_item(entry->Item_0, t, id, name)
    }
}

/// Whether a dump holds what is written of a tree.
pub open spec fn is_dump_of(dump: Dump, t: Tree) -> bool {
    dump.major == MAJOR && says_dir(dump.root, t, ROOT, shown(t.root()))
}

/// Whether only directories have entries.
pub open spec fn only_dirs_hold(t: Tree) -> bool {
    forall|i: int|
        0 < i < t.nodes().len() && (#[trigger] t.kids()[i]).len() > 0 ==> t.nodes()[i].carries(
            flags::DIR,
        )
}

/// Whether what is at and below a node of `u` is what is at and below one of `t`: the same
/// entries in the same order, each with the same totals and the same time.
pub open spec fn mirrors(t: Tree, id: NodeId, u: Tree, p: NodeId) -> bool
    decreases t.nodes().len() - id,
{
    let (a, b) = (t.nodes()[id as int], u.nodes()[p as int]);
    &&& p < u.nodes().len()
    &&& b.apparent == a.apparent
    &&& b.disk == a.disk
    &&& b.items == a.items
    &&& b.mtime == a.mtime
    &&& u.kids()[p as int].len() == t.kids()[id as int].len()
    &&& forall|j: int|
        0 <= j < t.kids()[id as int].len() ==> {
            let c = #[trigger] t.kids()[id as int][j];
            let d = u.kids()[p as int][j];
            id < c < t.nodes().len() ==> {
                &&& u.spec_name(d) == clipped(encode_utf8(shown(t.spec_name(c))))
                &&& mirrors(t, c, u, d)
            }
        }
}

// ---------------------------------------------------------------------------------------------
// The list a dump comes to

/// The nodes among those numbered `a` to `b` that are added below `p`.
spec fn kids_in(l: Seq<Added>, a: int, b: int, p: int) -> Seq<NodeId>
    decreases b - a,
{
    if b <= a {
        Seq::empty()
    } else if l[b - 1].parent == p {
        kids_in(l, a, b - 1, p).push(b as NodeId)
    } else {
        kids_in(l, a, b - 1, p)
    }
}

proof fn lemma_kids_none(l: Seq<Added>, a: int, b: int, p: int)
    requires
        forall|k: int| a <= k < b ==> (#[trigger] l[k]).parent != p,
    ensures
        kids_in(l, a, b, p) == Seq::<NodeId>::empty(),
    decreases b - a,
{
    if a < b {
        assert(l[b - 1].parent != p);
        lemma_kids_none(l, a, b - 1, p);
    }
}

proof fn lemma_kids_split(l: Seq<Added>, a: int, m: int, b: int, p: int)
    requires
        a <= m <= b,
    ensures
        kids_in(l, a, b, p) == kids_in(l, a, m, p) + kids_in(l, m, b, p),
    decreases b - m,
{
    if m < b {
        lemma_kids_split(l, a, m, b - 1, p);
        assert(kids_in(l, a, b, p) =~= kids_in(l, a, m, p) + kids_in(l, m, b, p));
    } else {
        assert(kids_in(l, a, b, p) =~= kids_in(l, a, m, p) + kids_in(l, m, b, p));
    }
}

/// Whether a node to add is what is written of a node.
spec fn is_copy(t: Tree, id: NodeId, a: Added) -> bool {
    let node = t.nodes()[id as int];
    let chain = t.kids()[id as int];
    &&& a.counted
    &&& a.meta.apparent == own(node.apparent, apparent_of(t.nodes(), chain, chain.len() as int))
    &&& a.meta.disk == own(node.disk, disk_of(t.nodes(), chain, chain.len() as int))
    &&& a.meta.mtime == node.mtime
    &&& a.name == encode_utf8(shown(t.spec_name(id)))
}

/// Whether what is below a node is below the one numbered `p` in a list.
spec fn laid(t: Tree, id: NodeId, p: int, l: Seq<Added>) -> bool
    decreases t.nodes().len() - id,
{
    let ks = kids_in(l, 0, l.len() as int, p);
    &&& ks.len() == t.kids()[id as int].len()
    &&& forall|j: int|
        0 <= j < ks.len() ==> {
            let c = #[trigger] t.kids()[id as int][j];
            id < c < t.nodes().len() ==> {
                &&& 1 <= ks[j] <= l.len()
                &&& is_copy(t, c, l[ks[j] - 1])
                &&& laid(t, c, ks[j] as int, l)
            }
        }
}

spec fn laid_at(t: Tree, c: NodeId, q: NodeId, l: Seq<Added>) -> bool {
    &&& 1 <= q <= l.len()
    &&& is_copy(t, c, l[q - 1])
    &&& laid(t, c, q as int, l)
}

/// Whether adding more left a list as it was, and added only below `parent` and below what was
/// added itself.
spec fn extends(was: Seq<Added>, now: Seq<Added>, parent: int) -> bool {
    &&& was.len() <= now.len()
    &&& now.take(was.len() as int) == was
    &&& parents_first(now)
    &&& forall|k: int|
        was.len() <= k < now.len() ==> (#[trigger] now[k]).parent == parent || now[k].parent
            > was.len()
}

proof fn lemma_dir_extends(entries: Seq<Entry>, parent: int, st: Flat, depth: int)
    requires
        parents_first(st.list),
        0 <= parent <= st.list.len(),
    ensures
        flat_dir(entries, parent, st, depth) matches Ok(out) ==> extends(
            st.list,
            out.list,
            parent,
        ),
    decreases MAX_DEPTH + 1 - depth, entries.len() + 1,
{
    if depth <= MAX_DEPTH {
        lemma_from_extends(entries, 0, parent, st, depth);
    }
}

proof fn lemma_from_extends(entries: Seq<Entry>, i: int, parent: int, st: Flat, depth: int)
    requires
        parents_first(st.list),
        0 <= parent <= st.list.len(),
    ensures
        flat_from(entries, i, parent, st, depth) matches Ok(out) ==> extends(
            st.list,
            out.list,
            parent,
        ),
    decreases MAX_DEPTH + 1 - depth, entries.len() - i,
{
    if i < 0 || i >= entries.len() || depth > MAX_DEPTH {
        assert(st.list.take(st.list.len() as int) =~= st.list);
    } else {
        match entries[i] {
            Entry::Item(item) => {
                let st1 = with_item(st, parent, item);
                assert(st1.list.take(st.list.len() as int) =~= st.list);
                assert(parents_first(st1.list));
                lemma_from_extends(entries, i + 1, parent, st1, depth);
                match flat_from(entries, i + 1, parent, st1, depth) {
                    Ok(out) => {
                        lemma_extends_more(st.list, st1.list, out.list, parent);
                    },
                    Err(_) => {},
                }
            },
            Entry::Dir(inner) => {
                if inner@.len() > 0 && inner@[0] is Item {
                    let id = 1 + st.list.len() as int;
                    let st1 = with_dir(st, parent, inner@[0]->Item_0);
                    assert(st1.list.take(st.list.len() as int) =~= st.list);
                    assert(parents_first(st1.list));
                    lemma_dir_extends(inner@.skip(1), id, st1, depth + 1);
                    match flat_dir(inner@.skip(1), id, st1, depth + 1) {
                        Err(_) => {},
                        Ok(st2) => {
                            lemma_from_extends(entries, i + 1, parent, st2, depth);
                            match flat_from(entries, i + 1, parent, st2, depth) {
                                Ok(out) => {
                                    lemma_extends_below(st.list, st1.list, st2.list, parent, id);
                                    lemma_extends_more(st.list, st2.list, out.list, parent);
                                },
                                Err(_) => {},
                            }
                        },
                    }
                }
            },
        }
    }
}

proof fn lemma_extends_more(a: Seq<Added>, b: Seq<Added>, c: Seq<Added>, parent: int)
    requires
        a.len() <= b.len(),
        b.take(a.len() as int) == a,
        forall|k: int|
            a.len() <= k < b.len() ==> (#[trigger] b[k]).parent == parent || b[k].parent > a.len(),
        extends(b, c, parent),
    ensures
        extends(a, c, parent),
{
    assert(c.take(a.len() as int) =~= a) by {
        assert(c.take(a.len() as int) =~= c.take(b.len() as int).take(a.len() as int));
    }
    assert forall|k: int| a.len() <= k < c.len() implies (#[trigger] c[k]).parent == parent
        || c[k].parent > a.len() by {
        if k < b.len() {
            assert(c[k] == c.take(b.len() as int)[k]);
            assert(b[k].parent == parent || b[k].parent > a.len());
        }
    }
}

proof fn lemma_extends_below(
    a: Seq<Added>,
    b: Seq<Added>,
    c: Seq<Added>,
    parent: int,
    id: int,
)
    requires
        b.len() == a.len() + 1,
        b.take(a.len() as int) == a,
        b[a.len() as int].parent == parent,
        id == a.len() + 1,
        extends(b, c, id),
    ensures
        a.len() <= c.len(),
        c.take(a.len() as int) == a,
        forall|k: int|
            a.len() <= k < c.len() ==> (#[trigger] c[k]).parent == parent || c[k].parent > a.len(),
{
    assert(c.take(a.len() as int) =~= c.take(b.len() as int).take(a.len() as int));
    assert forall|k: int| a.len() <= k < c.len() implies (#[trigger] c[k]).parent == parent
        || c[k].parent > a.len() by {
        if k < b.len() {
            assert(c[k] == c.take(b.len() as int)[k]);
        }
    }
}

/// What is added below a node is all there is below it, where nothing else is.
proof fn lemma_kids_only(l: Seq<Added>, a: int, b: int, p: int)
    requires
        0 <= a <= b <= l.len(),
        forall|k: int|
            0 <= k < l.len() && !(a <= k < b) ==> (#[trigger] l[k]).parent != p,
    ensures
        kids_in(l, 0, l.len() as int, p) == kids_in(l, a, b, p),
{
    let n = l.len() as int;
    lemma_kids_split(l, 0, a, n, p);
    lemma_kids_split(l, a, b, n, p);
    lemma_kids_none(l, 0, a, p);
    lemma_kids_none(l, b, n, p);
    assert(kids_in(l, 0, n, p) =~= kids_in(l, a, b, p));
}

/// Whether a list begins with what entries came to, and nothing is added later below what they
/// brought.
spec fn goes_on(st: Flat, out: Flat, l: Seq<Added>) -> bool {
    &&& l.len() <= u32::MAX
    &&& parents_first(l)
    &&& st.list.len() <= out.list.len() <= l.len()
    &&& l.take(out.list.len() as int) == out.list
    &&& forall|k: int|
        out.list.len() <= k < l.len() ==> (#[trigger] l[k]).parent <= st.list.len() || l[k].parent
            > out.list.len()
}

/// Whether entries say of the children of a node what is written of them.
spec fn says_kids(entries: Seq<Entry>, t: Tree, id: NodeId) -> bool {
    &&& entries.len() == t.kids()[id as int].len()
    &&& forall|j: int|
        0 <= j < entries.len() ==> {
            let c = #[trigger] t.kids()[id as int][j];
            says(entries[j], t, c, shown(t.spec_name(c)))
        }
}

/// Whether the children of a node from `i` on are what is added below `p`.
spec fn laid_from(
    t: Tree,
    id: NodeId,
    i: int,
    p: int,
    a: int,
    b: int,
    l: Seq<Added>,
) -> bool {
    let ks = kids_in(l, a, b, p);
    &&& ks.len() == t.kids()[id as int].len() - i
    &&& forall|j: int|
        0 <= j < ks.len() ==> laid_at(t, t.kids()[id as int][i + j], #[trigger] ks[j], l)
}

/// One child more, at the front.
proof fn lemma_laid_step(
    t: Tree,
    id: NodeId,
    i: int,
    p: int,
    a: int,
    m: int,
    b: int,
    l: Seq<Added>,
)
    requires
        0 <= i < t.kids()[id as int].len(),
        0 <= a < m <= b <= l.len() <= u32::MAX,
        l[a].parent == p,
        forall|k: int| a < k < m ==> (#[trigger] l[k]).parent != p,
        laid_at(t, t.kids()[id as int][i], (a + 1) as NodeId, l),
        laid_from(t, id, i + 1, p, m, b, l),
    ensures
        laid_from(t, id, i, p, a, b, l),
{
    let q = (a + 1) as NodeId;
    let rest = kids_in(l, m, b, p);
    lemma_kids_split(l, a, a + 1, b, p);
    lemma_kids_split(l, a + 1, m, b, p);
    lemma_kids_none(l, a + 1, m, p);
    assert(kids_in(l, a, a, p) =~= Seq::<NodeId>::empty());
    assert(kids_in(l, a, a + 1, p) =~= seq![q]);
    let ks = kids_in(l, a, b, p);
    assert(ks =~= seq![q] + rest);
    assert forall|j: int| 0 <= j < ks.len() implies laid_at(
        t,
        t.kids()[id as int][i + j],
        #[trigger] ks[j],
        l,
    ) by {
        if j > 0 {
            assert(ks[j] == rest[j - 1]);
            assert(laid_at(t, t.kids()[id as int][i + 1 + (j - 1)], rest[j - 1], l));
        }
    }
}

proof fn lemma_leaf_laid(t: Tree, c: NodeId, parent: int, st: Flat, item: Item, l: Seq<Added>)
    requires
        t.wf(),
        only_dirs_hold(t),
        0 < c < t.nodes().len(),
        !t.nodes()[c as int].carries(flags::DIR),
        says_item(item, t, c, shown(t.spec_name(c))),
        st.list.len() < l.len() <= u32::MAX,
        l[st.list.len() as int] == with_item(st, parent, item).list.last(),
        forall|k: int| 0 <= k < l.len() ==> (#[trigger] l[k]).parent != st.list.len() + 1,
    ensures
        laid_at(t, c, (st.list.len() + 1) as NodeId, l),
{
    let q = st.list.len() + 1;
    assert(t.kids()[c as int].len() == 0);
    lemma_kids_none(l, 0, l.len() as int, q as int);
}

proof fn lemma_dir_laid(
    t: Tree,
    id: NodeId,
    entries: Seq<Entry>,
    parent: int,
    st: Flat,
    depth: int,
    l: Seq<Added>,
)
    requires
        t.wf(),
        only_dirs_hold(t),
        t.holds(id),
        says_kids(entries, t, id),
        parents_first(st.list),
        0 <= parent <= st.list.len(),
        flat_dir(entries, parent, st, depth) is Ok,
        goes_on(st, flat_dir(entries, parent, st, depth)->Ok_0, l),
    ensures
        laid_from(
            t,
            id,
            0,
            parent,
            st.list.len() as int,
            flat_dir(entries, parent, st, depth)->Ok_0.list.len() as int,
            l,
        ),
    decreases MAX_DEPTH + 1 - depth, entries.len() + 1,
{
    lemma_from_laid(t, id, entries, 0, parent, st, depth, l);
}

proof fn lemma_from_laid(
    t: Tree,
    id: NodeId,
    entries: Seq<Entry>,
    i: int,
    parent: int,
    st: Flat,
    depth: int,
    l: Seq<Added>,
)
    requires
        t.wf(),
        only_dirs_hold(t),
        t.holds(id),
        says_kids(entries, t, id),
        0 <= i <= entries.len(),
        depth <= MAX_DEPTH,
        parents_first(st.list),
        0 <= parent <= st.list.len(),
        flat_from(entries, i, parent, st, depth) is Ok,
        goes_on(st, flat_from(entries, i, parent, st, depth)->Ok_0, l),
    ensures
        laid_from(
            t,
            id,
            i,
            parent,
            st.list.len() as int,
            flat_from(entries, i, parent, st, depth)->Ok_0.list.len() as int,
            l,
        ),
    decreases MAX_DEPTH + 1 - depth, entries.len() - i,
{
    let out = flat_from(entries, i, parent, st, depth)->Ok_0;
    let a = st.list.len() as int;
    let b = out.list.len() as int;
    if i < entries.len() {
        let c = t.kids()[id as int][i];
        assert(is_kid(t.nodes(), t.kids()[id as int][i], id as int));
        assert(t.nodes()[c as int].parent < c);
        assert(says(entries[i], t, c, shown(t.spec_name(c))));
        lemma_from_extends(entries, i, parent, st, depth);
        assert forall|k: int| 0 <= k < b implies #[trigger] l[k] == out.list[k] by {
            assert(l.take(b)[k] == l[k]);
        }
        match entries[i] {
            Entry::Item(item) => {
                let st1 = with_item(st, parent, item);
                assert(parents_first(st1.list));
                lemma_from_extends(entries, i + 1, parent, st1, depth);
                assert(out.list[a] == out.list.take(a + 1)[a]);
                assert(l[a] == st1.list.last());
                assert forall|k: int| 0 <= k < l.len() implies (#[trigger] l[k]).parent != a + 1 by {
                    if k > a && k < b {
                        assert(out.list[k].parent == parent || out.list[k].parent > a + 1);
                    }
                }
                lemma_leaf_laid(t, c, parent, st, item, l);
                lemma_from_laid(t, id, entries, i + 1, parent, st1, depth, l);
                lemma_laid_step(t, id, i, parent, a, a + 1, b, l);
            },
            Entry::Dir(inner) => {
                let st1 = with_dir(st, parent, inner@[0]->Item_0);
                let st2 = flat_dir(inner@.skip(1), a + 1, st1, depth + 1)->Ok_0;
                assert(parents_first(st1.list));
                lemma_dir_extends(inner@.skip(1), a + 1, st1, depth + 1);
                lemma_from_extends(entries, i + 1, parent, st2, depth);
                lemma_says_kids(t, c, entries[i], shown(t.spec_name(c)));
                lemma_branch_laid(t, c, inner@, parent, st, depth, out, l);
                lemma_from_laid(t, id, entries, i + 1, parent, st2, depth, l);
                lemma_laid_step(t, id, i, parent, a, st2.list.len() as int, b, l);
            },
        }
    }
}

proof fn lemma_says_kids(t: Tree, id: NodeId, entry: Entry, name: Seq<char>)
    requires
        t.wf(),
        t.holds(id),
        says_dir(entry, t, id, name),
    ensures
        says_kids(entry->Dir_0@.skip(1), t, id),
{
    let entries = entry->Dir_0@.skip(1);
    assert forall|j: int| 0 <= j < entries.len() implies {
        let c = #[trigger] t.kids()[id as int][j];
        says(entries[j], t, c, shown(t.spec_name(c)))
    } by {
        let c = t.kids()[id as int][j];
        assert(is_kid(t.nodes(), t.kids()[id as int][j], id as int));
        assert(t.nodes()[c as int].parent < c);
        assert(entries[j] == entry->Dir_0@[j + 1]);
    }
}

proof fn lemma_branch_laid(
    t: Tree,
    c: NodeId,
    inner: Seq<Entry>,
    parent: int,
    st: Flat,
    depth: int,
    out: Flat,
    l: Seq<Added>,
)
    requires
        t.wf(),
        only_dirs_hold(t),
        0 < c < t.nodes().len(),
        depth <= MAX_DEPTH,
        inner.len() > 0,
        inner[0] is Item,
        says_item(inner[0]->Item_0, t, c, shown(t.spec_name(c))),
        says_kids(inner.skip(1), t, c),
        parents_first(st.list),
        0 <= parent <= st.list.len(),
        ({
            let st1 = with_dir(st, parent, inner[0]->Item_0);
            let made = flat_dir(inner.skip(1), st.list.len() as int + 1, st1, depth + 1);
            made is Ok && extends(made->Ok_0.list, out.list, parent)
        }),
        goes_on(st, out, l),
    ensures
        ({
            let a = st.list.len() as int;
            let st1 = with_dir(st, parent, inner[0]->Item_0);
            let st2 = flat_dir(inner.skip(1), a + 1, st1, depth + 1)->Ok_0;
            &&& laid_at(t, c, (a + 1) as NodeId, l)
            &&& a < st2.list.len() <= out.list.len()
            &&& l[a].parent == parent
            &&& forall|k: int| a < k < st2.list.len() ==> (#[trigger] l[k]).parent != parent
            &&& parents_first(st2.list)
            &&& goes_on(st2, out, l)
        }),
    decreases MAX_DEPTH + 1 - depth, 0int,
{
    let a = st.list.len() as int;
    let b = out.list.len() as int;
    let st1 = with_dir(st, parent, inner[0]->Item_0);
    let st2 = flat_dir(inner.skip(1), a + 1, st1, depth + 1)->Ok_0;
    let m = st2.list.len() as int;
    assert(parents_first(st1.list));
    lemma_dir_extends(inner.skip(1), a + 1, st1, depth + 1);
    assert forall|k: int| 0 <= k < b implies #[trigger] l[k] == out.list[k] by {
        assert(l.take(b)[k] == l[k]);
    }
    assert forall|k: int| 0 <= k < m implies #[trigger] l[k] == st2.list[k] by {
        assert(out.list.take(m)[k] == out.list[k]);
    }
    assert(l.take(m) =~= st2.list);
    assert(l[a] == st1.list[a]) by {
        assert(st2.list.take(a + 1)[a] == st2.list[a]);
    }
    assert forall|k: int| a < k < m implies (#[trigger] l[k]).parent > a by {
        assert(st2.list[k].parent == a + 1 || st2.list[k].parent > a + 1);
    }
    assert forall|k: int| m <= k < l.len() implies (#[trigger] l[k]).parent <= a || l[k].parent
        > m by {
        if k < b {
            assert(out.list[k].parent == parent || out.list[k].parent > m);
        }
    }
    assert(goes_on(st1, st2, l));
    lemma_dir_laid(t, c, inner.skip(1), a + 1, st1, depth + 1, l);
    lemma_kids_only(l, a + 1, m, a + 1);
    let q = (a + 1) as NodeId;
    let ks = kids_in(l, 0, l.len() as int, a + 1);
    assert forall|j: int| 0 <= j < ks.len() implies {
        let d = #[trigger] t.kids()[c as int][j];
        c < d < t.nodes().len() ==> {
            &&& 1 <= ks[j] <= l.len()
            &&& is_copy(t, d, l[ks[j] - 1])
            &&& laid(t, d, ks[j] as int, l)
        }
    } by {
        assert(laid_at(t, t.kids()[c as int][0 + j], ks[j], l));
    }
    assert(laid(t, c, a + 1, l));
}

// ---------------------------------------------------------------------------------------------
// The tree a list comes to

proof fn lemma_grown_kids(start: Model, l: Seq<Added>, n: int)
    requires
        start.nodes.len() == 1,
        start.kids == seq![Seq::<NodeId>::empty()],
        parents_first(l),
        0 <= n <= l.len(),
        grown(start, l, n) is Some,
    ensures
        n <= u32::MAX,
        grown(start, l, n)->0.nodes.len() == n + 1,
        grown(start, l, n)->0.kids.len() == n + 1,
        forall|p: int|
            0 <= p <= n ==> #[trigger] grown(start, l, n)->0.kids[p] == kids_in(
                l,
                0,
                n,
                p,
            ).reverse(),
    decreases n,
{
    let m = grown(start, l, n)->0;
    if n == 0 {
        assert(kids_in(l, 0, 0, 0).reverse() =~= Seq::<NodeId>::empty());
    } else {
        let was = grown(start, l, n - 1)->0;
        let a = l[n - 1];
        lemma_grown_kids(start, l, n - 1);
        assert(takes(was, a));
        let id = was.nodes.len() as NodeId;
        assert forall|p: int| 0 <= p <= n implies #[trigger] m.kids[p] == kids_in(
            l,
            0,
            n,
            p,
        ).reverse() by {
            if p == n {
                lemma_kids_none(l, 0, n, n);
                assert(kids_in(l, 0, n, n).reverse() =~= Seq::<NodeId>::empty());
            } else {
                let before = kids_in(l, 0, n - 1, p);
                assert(was.kids[p] == before.reverse());
                if p == a.parent {
                    assert(before.push(id).reverse() =~= seq![id] + before.reverse());
                }
            }
        }
    }
}

/// What a node is called and when it was changed stays what it was added with.
proof fn lemma_grown_names(start: Model, l: Seq<Added>, n: int)
    requires
        start.nodes.len() == 1,
        start.kids == seq![Seq::<NodeId>::empty()],
        parents_first(l),
        0 <= n <= l.len(),
        grown(start, l, n) is Some,
    ensures
        ({
            let m = grown(start, l, n)->0;
            &&& m.nodes.len() == n + 1
            &&& m.nodes[0].mtime == start.nodes[0].mtime
            &&& forall|k: int|
                1 <= k <= n ==> {
                    &&& (#[trigger] m.nodes[k]).mtime == l[k - 1].meta.mtime
                    &&& m.nodes[k].name_off + m.nodes[k].name_len <= m.names.len()
                    &&& name_of(m.nodes, m.names, k) == clipped(l[k - 1].name)
                }
        }),
    decreases n,
{
    let m = grown(start, l, n)->0;
    if n > 0 {
        let was = grown(start, l, n - 1)->0;
        let a = l[n - 1];
        lemma_grown_names(start, l, n - 1);
        assert(takes(was, a));
        assert forall|k: int| 1 <= k <= n implies {
            &&& (#[trigger] m.nodes[k]).mtime == l[k - 1].meta.mtime
            &&& m.nodes[k].name_off + m.nodes[k].name_len <= m.names.len()
            &&& name_of(m.nodes, m.names, k) == clipped(l[k - 1].name)
        } by {
            if k < n {
                assert(was.nodes[k].mtime == l[k - 1].meta.mtime);
                assert(name_of(m.nodes, m.names, k) =~= name_of(was.nodes, was.names, k));
            } else {
                assert(name_of(m.nodes, m.names, k) =~= clipped(a.name));
            }
        }
    }
}

proof fn lemma_same_chain(
    a: Seq<Node>,
    wa: Seq<nat>,
    chain: Seq<NodeId>,
    b: Seq<Node>,
    wb: Seq<nat>,
    other: Seq<NodeId>,
    k: int,
)
    requires
        0 <= k <= chain.len(),
        chain.len() == other.len(),
        forall|j: int|
            0 <= j < k ==> weight_below(b, wb, #[trigger] other[j] as int, b.len() as int)
                == weight_below(a, wa, chain[j] as int, a.len() as int),
    ensures
        chain_weight(b, wb, other, k, b.len() as int) == chain_weight(
            a,
            wa,
            chain,
            k,
            a.len() as int,
        ),
    decreases k,
{
    if k > 0 {
        lemma_same_chain(a, wa, chain, b, wb, other, k - 1);
        assert(weight_below(b, wb, other[k - 1] as int, b.len() as int) == weight_below(
            a,
            wa,
            chain[k - 1] as int,
            a.len() as int,
        ));
    }
}

/// Where the children of two nodes weigh the same and the nodes do by themselves, they do with all
/// that is below them.
proof fn lemma_same_weight(
    t: Tree,
    w: Seq<nat>,
    id: NodeId,
    u: Tree,
    v: Seq<nat>,
    p: NodeId,
)
    requires
        t.wf(),
        u.wf(),
        t.holds(id),
        u.holds(p),
        w[id as int] == v[p as int],
        t.kids()[id as int].len() == u.kids()[p as int].len(),
        forall|j: int|
            0 <= j < t.kids()[id as int].len() ==> weight_below(
                u.nodes(),
                v,
                #[trigger] u.kids()[p as int][j] as int,
                u.nodes().len() as int,
            ) == weight_below(
                t.nodes(),
                w,
                t.kids()[id as int][j] as int,
                t.nodes().len() as int,
            ),
    ensures
        weight_below(u.nodes(), v, p as int, u.nodes().len() as int) == weight_below(
            t.nodes(),
            w,
            id as int,
            t.nodes().len() as int,
        ),
{
    let len = t.kids()[id as int].len() as int;
    lemma_same_chain(
        t.nodes(),
        w,
        t.kids()[id as int],
        u.nodes(),
        v,
        u.kids()[p as int],
        len,
    );
    lemma_parts(t.nodes(), t.kids(), w, id as int, t.nodes().len() as int);
    lemma_parts(u.nodes(), u.kids(), v, p as int, u.nodes().len() as int);
}

/// Whether a tree is what a list comes to, as far as it matters here.
spec fn is_made(u: Tree, l: Seq<Added>, va: Seq<nat>, vd: Seq<nat>) -> bool {
    &&& u.wf()
    &&& u.nodes().len() == l.len() + 1
    &&& accounted(u.nodes(), va, vd)
    &&& forall|p: int|
        0 <= p < u.nodes().len() ==> #[trigger] u.kids()[p] == kids_in(l, 0, l.len() as int, p)
    &&& forall|k: int|
        1 <= k <= l.len() ==> {
            &&& (#[trigger] u.nodes()[k]).mtime == l[k - 1].meta.mtime
            &&& name_of(u.nodes(), u.names(), k) == clipped(l[k - 1].name)
            &&& va[k] == weight(l[k - 1]).0
            &&& vd[k] == weight(l[k - 1]).1
        }
}

proof fn lemma_mirrors(
    t: Tree,
    wa: Seq<nat>,
    wd: Seq<nat>,
    id: NodeId,
    u: Tree,
    va: Seq<nat>,
    vd: Seq<nat>,
    p: NodeId,
    l: Seq<Added>,
)
    requires
        t.wf(),
        t.holds(id),
        accounted(t.nodes(), wa, wd),
        is_made(u, l, va, vd),
        u.holds(p),
        laid(t, id, p as int, l),
        va[p as int] == wa[id as int],
        vd[p as int] == wd[id as int],
        u.nodes()[p as int].mtime == t.nodes()[id as int].mtime,
    ensures
        mirrors(t, id, u, p),
    decreases t.nodes().len() - id,
{
    let chain = t.kids()[id as int];
    let other = u.kids()[p as int];
    let (nt, nu) = (t.nodes().len(), u.nodes().len());
    assert forall|j: int| 0 <= j < chain.len() implies {
        let c = #[trigger] t.kids()[id as int][j];
        let d = u.kids()[p as int][j];
        &&& id < c < nt
        &&& d < nu
        &&& u.spec_name(d) == clipped(encode_utf8(shown(t.spec_name(c))))
        &&& mirrors(t, c, u, d)
    } by {
        let c = t.kids()[id as int][j];
        let d = u.kids()[p as int][j];
        assert(is_kid(t.nodes(), t.kids()[id as int][j], id as int));
        assert(t.nodes()[c as int].parent < c);
        assert(is_copy(t, c, l[d - 1]) && laid(t, c, d as int, l));
        law_own_sizes_are_written(t, wa, wd, c);
        assert(u.nodes()[d as int].mtime == l[d - 1].meta.mtime);
        lemma_mirrors(t, wa, wd, c, u, va, vd, d, l);
    }
    assert forall|j: int| 0 <= j < chain.len() implies {
        let d = #[trigger] u.kids()[p as int][j] as int;
        let c = t.kids()[id as int][j] as int;
        &&& weight_below(u.nodes(), va, d, nu as int) == weight_below(t.nodes(), wa, c, nt as int)
        &&& weight_below(u.nodes(), vd, d, nu as int) == weight_below(t.nodes(), wd, c, nt as int)
        &&& weight_below(u.nodes(), ones(nu), d, nu as int) == weight_below(
            t.nodes(),
            ones(nt),
            c,
            nt as int,
        )
    } by {
        let d = u.kids()[p as int][j] as int;
        let c = t.kids()[id as int][j] as int;
        assert(mirrors(t, c as NodeId, u, d as NodeId));
        assert(u.nodes()[d].apparent == weight_below(u.nodes(), va, d, nu as int));
        assert(t.nodes()[c].apparent == weight_below(t.nodes(), wa, c, nt as int));
    }
    lemma_same_weight(t, wa, id, u, va, p);
    lemma_same_weight(t, wd, id, u, vd, p);
    lemma_same_weight(t, ones(nt), id, u, ones(nu), p);
    assert(u.nodes()[p as int].apparent == weight_below(u.nodes(), va, p as int, nu as int));
    assert(t.nodes()[id as int].apparent == weight_below(t.nodes(), wa, id as int, nt as int));
}

/// What a list comes to, put in order, is made of it.
proof fn lemma_made(info: Item, l: Seq<Added>, u: Tree)
    requires
        is_built(info, l, u),
        parents_first(l),
    ensures
        l.len() <= u32::MAX,
        is_made(u, l, apparent_weights(info.asize, l), disk_weights(info.dsize, l)),
        u.nodes()[0].mtime == info.mtime,
{
    let start = root_model(info.spec_meta(Kind::Dir));
    let n = l.len() as int;
    let m = grown(start, l, n)->0;
    lemma_grown_kids(start, l, n);
    lemma_grown_names(start, l, n);
    assert forall|p: int| 0 <= p < u.nodes().len() implies #[trigger] u.kids()[p] == kids_in(
        l,
        0,
        n,
        p,
    ) by {
        assert(u.kids()[p] == m.kids[p].reverse());
        assert(kids_in(l, 0, n, p).reverse().reverse() =~= kids_in(l, 0, n, p));
    }
    assert forall|k: int| 1 <= k <= l.len() implies {
        &&& (#[trigger] u.nodes()[k]).mtime == l[k - 1].meta.mtime
        &&& name_of(u.nodes(), u.names(), k) == clipped(l[k - 1].name)
    } by {
        assert(same_but_links(m.nodes[k], u.nodes()[k]));
        assert(m.nodes[k].mtime == l[k - 1].meta.mtime);
    }
    assert(same_but_links(m.nodes[0], u.nodes()[0]));
}

/// What a dump of a tree comes to has the tree's entries in their places.
proof fn lemma_root_laid(t: Tree, dump: Dump, l: Seq<Added>)
    requires
        t.wf(),
        only_dirs_hold(t),
        is_dump_of(dump, t),
        dump_parts(dump) matches Ok((info, list)) && list == l,
        l.len() <= u32::MAX,
    ensures
        parents_first(l),
        laid(t, ROOT, 0, l),
{
    let entries = dump.root->Dir_0@;
    let none = Flat { list: Seq::<Added>::empty(), seen: Set::empty() };
    let n = l.len() as int;
    lemma_dir_extends(entries.skip(1), 0, none, 1);
    lemma_says_kids(t, ROOT, dump.root, shown(t.root()));
    assert(l.take(n) =~= l);
    lemma_dir_laid(t, ROOT, entries.skip(1), 0, none, 1, l);
    let ks = kids_in(l, 0, n, 0);
    assert forall|j: int| 0 <= j < ks.len() implies {
        let d = #[trigger] t.kids()[ROOT as int][j];
        ROOT < d < t.nodes().len() ==> {
            &&& 1 <= ks[j] <= l.len()
            &&& is_copy(t, d, l[ks[j] - 1])
            &&& laid(t, d, ks[j] as int, l)
        }
    } by {
        assert(laid_at(t, t.kids()[ROOT as int][0 + j], ks[j], l));
    }
}

/// What a dump of a tree is read back as mirrors the tree: every entry is there, in its place and
/// with its size, what it holds added up again to the same totals.
pub proof fn law_sizes_survive_the_round_trip(
    t: Tree,
    wa: Seq<nat>,
    wd: Seq<nat>,
    dump: Dump,
    u: Tree,
)
    requires
        t.wf(),
        accounted(t.nodes(), wa, wd),
        only_dirs_hold(t),
        is_dump_of(dump, t),
        is_dump_tree(dump, u),
    ensures
        u.root() == encode_utf8(shown(t.root())),
        mirrors(t, ROOT, u, ROOT),
{
    let entries = dump.root->Dir_0@;
    let info = entries[0]->Item_0;
    let none = Flat { list: Seq::<Added>::empty(), seen: Set::empty() };
    let l = dump_parts(dump)->Ok_0.1;
    lemma_dir_extends(entries.skip(1), 0, none, 1);
    lemma_made(info, l, u);
    lemma_root_laid(t, dump, l);
    law_own_sizes_are_written(t, wa, wd, ROOT);
    let va = apparent_weights(info.asize, l);
    let vd = disk_weights(info.dsize, l);
    lemma_mirrors(t, wa, wd, ROOT, u, va, vd, ROOT, l);
}

} // verus!
