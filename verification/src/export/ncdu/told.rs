//! What a dump is read as, told off its entries.

use vstd::prelude::*;

use super::{
    dump_parts, flat_dir, flat_from, is_link, item_flags, with_dir, with_item, Dump, Entry, Flat,
    Item, MAX_DEPTH,
};
use crate::inode::{key_of, law_keys_are_distinct};
use crate::model::grow::Added;
use crate::model::Kind;

verus! {

/// An entry of a dump is read as what it says: its name, its sizes, when it was written, whether it
/// could be read, and whether it is a file at all.
pub proof fn law_what_an_item_is_read_as(st: Flat, parent: int, item: Item)
    ensures
        ({
            let now = with_item(st, parent, item);
            let a = now.list[st.list.len() as int];
            &&& now.list.len() == st.list.len() + 1
            &&& now.list.take(st.list.len() as int) == st.list
            &&& a.parent == parent
            &&& a.name == vstd::utf8::encode_utf8(item.name@)
            &&& a.meta.kind == (if item.notreg {
                Kind::Other
            } else {
                Kind::File
            })
            &&& a.meta.apparent == item.asize
            &&& a.meta.disk == item.dsize
            &&& a.meta.mtime == item.mtime
            &&& a.meta.dev == item.dev
            &&& a.meta.ino == item.ino
            &&& a.error == item.read_error
            &&& !item.hlnkc ==> a.counted
        }),
{
    let now = with_item(st, parent, item);
    assert(now.list.take(st.list.len() as int) =~= st.list);
}

/// A directory of a dump is read as what its record says, and always counts.
pub proof fn law_what_a_directory_is_read_as(st: Flat, parent: int, info: Item)
    ensures
        ({
            let now = with_dir(st, parent, info);
            let a = now.list[st.list.len() as int];
            &&& now.list.len() == st.list.len() + 1
            &&& now.list.take(st.list.len() as int) == st.list
            &&& a.parent == parent
            &&& a.name == vstd::utf8::encode_utf8(info.name@)
            &&& a.meta.kind == Kind::Dir
            &&& a.meta.apparent == info.asize
            &&& a.meta.disk == info.dsize
            &&& a.meta.mtime == info.mtime
            &&& a.error == info.read_error
            &&& a.counted
        }),
{
    let now = with_dir(st, parent, info);
    assert(now.list.take(st.list.len() as int) =~= st.list);
}

/// What a dump says went wrong with an entry is flagged, bit by bit.
pub proof fn law_what_is_flagged_in_a_dump(item: Item, seen: Set<u128>)
    ensures
        (item_flags(item, seen) & 16 != 0) == item.read_error,
        (item_flags(item, seen) & 8 != 0) == (item.excluded matches Some(why) && why@ == "otherfs"@),
        (item_flags(item, seen) & 128 != 0) == (item.excluded matches Some(why) && why@
            != "otherfs"@),
        (item_flags(item, seen) & 32 != 0 || item_flags(item, seen) & 64 != 0) == item.hlnkc,
        item_flags(item, seen) & 1 == 0,
        item_flags(item, seen) & 2 == 0,
        item_flags(item, seen) & 4 == 0,
        item_flags(item, seen) & 256 == 0,
{
    let a: u16 = if item.read_error { 16 } else { 0 };
    let b: u16 = match item.excluded {
        Some(why) => if why@ == "otherfs"@ { 8 } else { 128 },
        None => 0,
    };
    let c: u16 = item_flags(item, seen);
    let d: u16 = if !item.hlnkc {
        0
    } else if super::is_repeat(item, seen) {
        64
    } else {
        32
    };
    assert(c == a | b || c == a | b | d);
    assert(item.hlnkc ==> c == a | b | d);
    assert(a | b | 0 == a | b) by (bit_vector);
    assert(c == a | b | d);
    assert((a == 0 || a == 16) && (b == 0 || b == 8 || b == 128) && (d == 0 || d == 32 || d == 64)
        && c == a | b | d ==> {
        &&& (c & 16 != 0) == (a == 16)
        &&& (c & 8 != 0) == (b == 8)
        &&& (c & 128 != 0) == (b == 128)
        &&& (c & 32 != 0 || c & 64 != 0) == (d != 0)
        &&& c & 1 == 0
        &&& c & 2 == 0
        &&& c & 4 == 0
        &&& c & 256 == 0
    }) by (bit_vector);
}

/// Whether two nodes stand for names of one inode.
pub open spec fn is_one_inode(a: Added, b: Added) -> bool {
    &&& is_link(a)
    &&& is_link(b)
    &&& a.meta.dev == b.meta.dev
    &&& a.meta.ino == b.meta.ino
}

/// Whether nothing is left out of the totals but what an earlier name of the same inode counts for.
spec fn nothing_lost(st: Flat) -> bool {
    &&& forall|k: int|
        0 <= k < st.list.len() && !(#[trigger] st.list[k]).counted ==> exists|j: int|
            0 <= j < k && is_one_inode(#[trigger] st.list[j], st.list[k]) && st.list[j].counted
    &&& forall|dev: u64, ino: u64| #[trigger]
        st.seen.contains(key_of(dev, ino)) ==> exists|j: int|
            {
                &&& 0 <= j < st.list.len()
                &&& is_link(#[trigger] st.list[j])
                &&& st.list[j].meta.dev == dev
                &&& st.list[j].meta.ino == ino
                &&& st.list[j].counted
            }
}

proof fn lemma_item_kept(st: Flat, parent: int, item: Item)
    requires
        nothing_lost(st),
    ensures
        nothing_lost(with_item(st, parent, item)),
{
    let now = with_item(st, parent, item);
    let n = st.list.len() as int;
    let a = now.list[n];
    assert forall|k: int| 0 <= k < n implies #[trigger] now.list[k] == st.list[k] by {}
    assert forall|k: int| 0 <= k < now.list.len() && !(#[trigger] now.list[k]).counted implies exists|
        j: int,
    |
        0 <= j < k && is_one_inode(#[trigger] now.list[j], now.list[k]) && now.list[j].counted by {
        if k < n {
            assert(!st.list[k].counted);
            let j = choose|j: int|
                0 <= j < k && is_one_inode(#[trigger] st.list[j], st.list[k]) && st.list[j].counted;
            assert(is_one_inode(now.list[j], now.list[k]));
        } else {
            assert(st.seen.contains(key_of(item.dev, item.ino)));
            let j = choose|j: int|
                {
                    &&& 0 <= j < st.list.len()
                    &&& is_link(#[trigger] st.list[j])
                    &&& st.list[j].meta.dev == item.dev
                    &&& st.list[j].meta.ino == item.ino
                    &&& st.list[j].counted
                };
            assert(is_one_inode(now.list[j], now.list[k]));
        }
    }
    assert forall|dev: u64, ino: u64| #[trigger] now.seen.contains(key_of(dev, ino)) implies exists|
        j: int,
    |
        {
            &&& 0 <= j < now.list.len()
            &&& is_link(#[trigger] now.list[j])
            &&& now.list[j].meta.dev == dev
            &&& now.list[j].meta.ino == ino
            &&& now.list[j].counted
        } by {
        if st.seen.contains(key_of(dev, ino)) {
            let j = choose|j: int|
                {
                    &&& 0 <= j < st.list.len()
                    &&& is_link(#[trigger] st.list[j])
                    &&& st.list[j].meta.dev == dev
                    &&& st.list[j].meta.ino == ino
                    &&& st.list[j].counted
                };
            assert(is_link(now.list[j]));
        } else {
            assert(key_of(dev, ino) == key_of(item.dev, item.ino));
            law_keys_are_distinct(dev, ino, item.dev, item.ino);
            assert(is_link(a) && a.counted);
        }
    }
}

proof fn lemma_dir_kept(st: Flat, parent: int, info: Item)
    requires
        nothing_lost(st),
    ensures
        nothing_lost(with_dir(st, parent, info)),
{
    let now = with_dir(st, parent, info);
    let n = st.list.len() as int;
    assert forall|k: int| 0 <= k < n implies #[trigger] now.list[k] == st.list[k] by {}
    assert forall|k: int| 0 <= k < now.list.len() && !(#[trigger] now.list[k]).counted implies exists|
        j: int,
    |
        0 <= j < k && is_one_inode(#[trigger] now.list[j], now.list[k]) && now.list[j].counted by {
        assert(k < n);
        assert(!st.list[k].counted);
        let j = choose|j: int|
            0 <= j < k && is_one_inode(#[trigger] st.list[j], st.list[k]) && st.list[j].counted;
        assert(is_one_inode(now.list[j], now.list[k]));
    }
    assert forall|dev: u64, ino: u64| #[trigger] now.seen.contains(key_of(dev, ino)) implies exists|
        j: int,
    |
        {
            &&& 0 <= j < now.list.len()
            &&& is_link(#[trigger] now.list[j])
            &&& now.list[j].meta.dev == dev
            &&& now.list[j].meta.ino == ino
            &&& now.list[j].counted
        } by {
        let j = choose|j: int|
            {
                &&& 0 <= j < st.list.len()
                &&& is_link(#[trigger] st.list[j])
                &&& st.list[j].meta.dev == dev
                &&& st.list[j].meta.ino == ino
                &&& st.list[j].counted
            };
        assert(is_link(now.list[j]));
    }
}

/// How many entries there are, with all that directories hold.
pub open spec fn entries_below(entries: Seq<Entry>, depth: int) -> nat
    decreases MAX_DEPTH + 1 - depth, entries.len(),
{
    if entries.len() == 0 || depth > MAX_DEPTH {
        0
    } else {
        entries_below(entries.drop_last(), depth) + match entries.last() {
            Entry::Item(_) => 1nat,
            Entry::Dir(inner) => 1 + entries_below(inner@.skip(1), depth + 1),
        }
    }
}

proof fn lemma_flat_from(entries: Seq<Entry>, i: int, parent: int, st: Flat, depth: int)
    requires
        nothing_lost(st),
        0 <= i <= entries.len(),
        depth <= MAX_DEPTH,
    ensures
        flat_from(entries, i, parent, st, depth) matches Ok(out) ==> nothing_lost(out)
            && out.list.len() + entries_below(entries.take(i), depth) == st.list.len()
            + entries_below(entries, depth),
    decreases MAX_DEPTH + 1 - depth, entries.len() - i,
{
    if i < entries.len() {
        assert(entries.take(i + 1).drop_last() =~= entries.take(i));
        assert(entries.take(i + 1).last() == entries[i]);
        match entries[i] {
            Entry::Item(item) => {
                lemma_item_kept(st, parent, item);
                lemma_flat_from(entries, i + 1, parent, with_item(st, parent, item), depth);
            },
            Entry::Dir(inner) => {
                if inner@.len() > 0 && inner@[0] is Item {
                    let id = 1 + st.list.len() as int;
                    let st1 = with_dir(st, parent, inner@[0]->Item_0);
                    lemma_dir_kept(st, parent, inner@[0]->Item_0);
                    lemma_flat_dir(inner@.skip(1), id, st1, depth + 1);
                    match flat_dir(inner@.skip(1), id, st1, depth + 1) {
                        Err(e) => {},
                        Ok(st2) => {
                            lemma_flat_from(entries, i + 1, parent, st2, depth);
                        },
                    }
                }
            },
        }
    } else {
        assert(entries.take(i) =~= entries);
    }
}

proof fn lemma_flat_dir(entries: Seq<Entry>, parent: int, st: Flat, depth: int)
    requires
        nothing_lost(st),
    ensures
        flat_dir(entries, parent, st, depth) matches Ok(out) ==> nothing_lost(out)
            && out.list.len() == st.list.len() + entries_below(entries, depth),
    decreases MAX_DEPTH + 1 - depth, entries.len() + 1,
{
    if depth <= MAX_DEPTH {
        lemma_flat_from(entries, 0, parent, st, depth);
        assert(entries.take(0) =~= Seq::<Entry>::empty());
    }
}

/// Every entry of a dump becomes a node, and every one of them counts but the further names of an
/// inode: what does not count has a name further up that does.
pub proof fn law_nothing_in_a_dump_is_lost(dump: Dump, k: int)
    requires
        dump_parts(dump) is Ok,
        0 <= k < dump_parts(dump)->Ok_0.1.len(),
    ensures
        ({
            let list = dump_parts(dump)->Ok_0.1;
            &&& list.len() == entries_below(dump.root->Dir_0@.skip(1), 1)
            &&& !list[k].counted ==> exists|j: int|
                0 <= j < k && is_one_inode(#[trigger] list[j], list[k]) && list[j].counted
        }),
{
    let none = Flat { list: Seq::empty(), seen: Set::empty() };
    assert(nothing_lost(none));
    lemma_flat_dir(dump.root->Dir_0@.skip(1), 0, none, 1);
}

/// How deep a dump may nest.
pub proof fn law_how_deep_a_dump_may_nest(entries: Seq<Entry>, parent: int, st: Flat, depth: int)
    ensures
        depth > 1024 ==> flat_dir(entries, parent, st, depth) is Err,
        depth <= 1024 && entries.len() == 0 ==> flat_dir(entries, parent, st, depth) == Ok::<
            Flat,
            Seq<char>,
        >(st),
{
}

/// A dump is taken exactly where it is of the version that is known and its root is a directory with a
/// record of its own, as far as what is directly in it is concerned.
pub proof fn law_which_dumps_are_taken(dump: Dump)
    ensures
        dump_parts(dump) is Ok ==> dump.major == 1 && dump.root is Dir && dump.root->Dir_0@.len() > 0
            && dump.root->Dir_0@[0] is Item,
        dump.major == 1 && dump.root is Dir && dump.root->Dir_0@.len() == 1 && dump.root->Dir_0@[0]
            is Item ==> dump_parts(dump) is Ok,
        dump_parts(dump) matches Ok((info, _)) ==> info == dump.root->Dir_0@[0]->Item_0,
{
}

} // verus!
