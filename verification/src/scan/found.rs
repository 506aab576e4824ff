//! What a scan makes of what it finds, told off the entries themselves.

use vstd::prelude::*;

use crate::inode::{key_of, law_keys_are_distinct};
use crate::model::grow::{errors_in, grown, lemma_grown_none, takes, weight, with_added, Model};
use crate::model::{
    clipped, flags, is_above, lemma_above_frame, lemma_root_above, linked, weighed, Kind, Node,
};
use crate::path::joined;
use crate::scan::builder::{
    dirs_after, entry_flags, entry_key, flag_if, is_loop, is_queued, is_repeat, is_shared,
    links_after, model_after, model_before, nodes_for, tasks_for, Reach,
};
use crate::scan::{Ctx, Descend, DirResult, Entry, ScanOptions};

verus! {

/// Whether two entries are names of one file that has several.
pub open spec fn are_links<F>(a: Entry<F>, b: Entry<F>) -> bool {
    &&& a.meta.kind == Kind::File && b.meta.kind == Kind::File
    &&& a.meta.nlink > 1 && b.meta.nlink > 1
    &&& a.meta.dev == b.meta.dev
    &&& a.meta.ino == b.meta.ino
}

/// Whether the entry at `k` is a name of a file that is counted under another name: one in `seen`, or
/// one before it in the same directory.
pub open spec fn is_counted_elsewhere<F>(entries: Seq<Entry<F>>, k: int, seen: Set<u128>) -> bool {
    let e = entries[k];
    &&& e.meta.kind == Kind::File
    &&& e.meta.nlink > 1
    &&& seen.contains(key_of(e.meta.dev, e.meta.ino)) || exists|i: int|
        0 <= i < k && are_links(#[trigger] entries[i], e)
}

/// What the entry at `k` adds to the totals: what it was found to take up, unless it could not be
/// read or is counted elsewhere.
pub open spec fn adds<F>(entries: Seq<Entry<F>>, k: int, seen: Set<u128>) -> (nat, nat) {
    if entries[k].err || is_counted_elsewhere(entries, k, seen) {
        (0, 0)
    } else {
        (entries[k].meta.apparent as nat, entries[k].meta.disk as nat)
    }
}

/// What the first `n` entries add together.
pub open spec fn added<F>(entries: Seq<Entry<F>>, n: int, seen: Set<u128>) -> (nat, nat)
    decreases n,
{
    if n <= 0 {
        (0, 0)
    } else {
        (
            added(entries, n - 1, seen).0 + adds(entries, n - 1, seen).0,
            added(entries, n - 1, seen).1 + adds(entries, n - 1, seen).1,
        )
    }
}

/// How many of the first `n` entries could not be read.
pub open spec fn unread<F>(entries: Seq<Entry<F>>, n: int) -> nat
    decreases n,
{
    if n <= 0 {
        0
    } else if entries[n - 1].err {
        unread(entries, n - 1) + 1
    } else {
        unread(entries, n - 1)
    }
}

proof fn lemma_seen<F>(entries: Seq<Entry<F>>, n: int, links: Set<u128>, e: Entry<F>)
    requires
        0 <= n <= entries.len(),
        e.meta.kind == Kind::File,
        e.meta.nlink > 1,
    ensures
        links_after(entries, n, links).contains(key_of(e.meta.dev, e.meta.ino)) <==> links.contains(
            key_of(e.meta.dev, e.meta.ino),
        ) || exists|i: int| 0 <= i < n && are_links(#[trigger] entries[i], e),
    decreases n,
{
    if n > 0 {
        lemma_seen(entries, n - 1, links, e);
        let last = entries[n - 1];
        if entry_key(last) == key_of(e.meta.dev, e.meta.ino) {
            law_keys_are_distinct(last.meta.dev, last.meta.ino, e.meta.dev, e.meta.ino);
        }
        if are_links(last, e) {
            assert(is_shared(last));
        }
        if exists|i: int| 0 <= i < n && are_links(#[trigger] entries[i], e) {
            let i = choose|i: int| 0 <= i < n && are_links(#[trigger] entries[i], e);
            if i < n - 1 {
                assert(exists|i: int| 0 <= i < n - 1 && are_links(#[trigger] entries[i], e));
            }
        }
        if is_shared(last) && entry_key(last) == key_of(e.meta.dev, e.meta.ino) {
            assert(are_links(entries[n - 1], e));
        }
    }
}

/// An entry counts unless it could not be read, or is a further name of a file that is counted
/// already: one that was seen before, or has a name before this one in the same directory.
pub proof fn law_what_counts<F>(
    ctx: Ctx,
    parent: int,
    entries: Seq<Entry<F>>,
    links: Set<u128>,
    dirs: Set<u128>,
    k: int,
)
    requires
        0 <= k < entries.len(),
    ensures
        ({
            let node = nodes_for(ctx, parent, entries, links, dirs)[k];
            &&& node.counted == (!entries[k].err && !is_counted_elsewhere(entries, k, links))
            &&& weight(node).0 == adds(entries, k, links).0
            &&& weight(node).1 == adds(entries, k, links).1
            &&& node.meta == entries[k].meta
            &&& node.name == entries[k].name@
            &&& node.parent == parent
            &&& node.error == entries[k].err
        }),
{
    let e = entries[k];
    if e.meta.kind == Kind::File && e.meta.nlink > 1 {
        lemma_seen(entries, k, links, e);
        assert(is_shared(e));
    }
}

/// A file with several names counts once. Of two names of it in a directory the second adds nothing;
/// and once one of them has been taken in, no name of it in a later directory does.
pub proof fn law_a_file_with_several_names_counts_once<F>(
    ctx: Ctx,
    parent: int,
    entries: Seq<Entry<F>>,
    links: Set<u128>,
    dirs: Set<u128>,
    i: int,
    other: int,
    later: Seq<Entry<F>>,
    seen: Set<u128>,
    j: int,
)
    requires
        0 <= i < entries.len(),
    ensures
        i < j < entries.len() && are_links(entries[i], entries[j]) ==> !nodes_for(
            ctx,
            parent,
            entries,
            links,
            dirs,
        )[j].counted && adds(entries, j, links) == (0nat, 0nat),
        0 <= j < later.len() && are_links(entries[i], later[j]) && links_after(
            entries,
            entries.len() as int,
            links,
        ).subset_of(seen) ==> !nodes_for(ctx, other, later, seen, dirs)[j].counted,
{
    if i < j < entries.len() && are_links(entries[i], entries[j]) {
        law_what_counts(ctx, parent, entries, links, dirs, j);
        assert(is_counted_elsewhere(entries, j, links));
    }
    let all = links_after(entries, entries.len() as int, links);
    if 0 <= j < later.len() && are_links(entries[i], later[j]) && all.subset_of(seen) {
        lemma_seen(entries, entries.len() as int, links, later[j]);
        law_what_counts(ctx, other, later, seen, dirs, j);
        assert(is_counted_elsewhere(later, j, seen));
    }
}

/// What has been seen stays seen.
pub proof fn law_links_are_remembered<F>(entries: Seq<Entry<F>>, n: int, links: Set<u128>)
    ensures
        links.subset_of(links_after(entries, n, links)),
    decreases n,
{
    if n > 0 {
        law_links_are_remembered(entries, n - 1, links);
    }
}

proof fn lemma_bits(a: u16, b: u16, c: u16, d: u16, e: u16, f: u16)
    requires
        a == 0 || a == 16,
        b == 0 || b == 128,
        c == 0 || c == 8,
        d == 0 || d == 32,
        e == 0 || e == 64,
        f == 0 || f == 256,
    ensures
        ((a | b | c | d | e | f) & 16 != 0) == (a == 16),
        ((a | b | c | d | e | f) & 128 != 0) == (b == 128),
        ((a | b | c | d | e | f) & 8 != 0) == (c == 8),
        ((a | b | c | d | e | f) & 32 != 0) == (d == 32),
        ((a | b | c | d | e | f) & 64 != 0) == (e == 64),
        ((a | b | c | d | e | f) & 256 != 0) == (f == 256),
        (a | b | c | d | e | f) & 7 == 0,
{
    assert(((a | b | c | d | e | f) & 16 != 0) == (a == 16) && ((a | b | c | d | e | f) & 128 != 0)
        == (b == 128) && ((a | b | c | d | e | f) & 8 != 0) == (c == 8) && ((a | b | c | d | e | f)
        & 32 != 0) == (d == 32) && ((a | b | c | d | e | f) & 64 != 0) == (e == 64) && ((a | b | c
        | d | e | f) & 256 != 0) == (f == 256) && (a | b | c | d | e | f) & 7 == 0) by (bit_vector)
        requires
            a == 0 || a == 16,
            b == 0 || b == 128,
            c == 0 || c == 8,
            d == 0 || d == 32,
            e == 0 || e == 64,
            f == 0 || f == 256,
    ;
}

/// What an entry is flagged with: that it could not be read, is excluded, is a directory on another
/// filesystem, is the first name of a file with several, or a further one, or is a directory that was
/// entered before.
pub proof fn law_what_is_flagged<F>(
    ctx: Ctx,
    parent: int,
    entries: Seq<Entry<F>>,
    links: Set<u128>,
    dirs: Set<u128>,
    k: int,
)
    requires
        0 <= k < entries.len(),
    ensures
        ({
            let e = entries[k];
            let f = nodes_for(ctx, parent, entries, links, dirs)[k].flags;
            &&& (f & flags::ERR != 0) == e.err
            &&& (f & flags::EXCLUDED != 0) == e.excluded
            &&& (f & flags::OTHER_FS != 0) == (e.meta.kind == Kind::Dir && ctx.opts.one_file_system
                && e.meta.dev != ctx.root_dev)
            &&& (f & flags::HARDLINK != 0) == (e.meta.kind == Kind::File && e.meta.nlink > 1
                && !is_counted_elsewhere(entries, k, links))
            &&& (f & flags::HARDLINK_DUP != 0) == is_counted_elsewhere(entries, k, links)
            &&& (f & flags::LOOP != 0) == (!(e.descend is No) && is_entered(entries, k, dirs))
        }),
{
    let e = entries[k];
    let ls = links_after(entries, k, links);
    let ds = dirs_after(entries, k, dirs);
    if e.meta.kind == Kind::File && e.meta.nlink > 1 {
        lemma_seen(entries, k, links, e);
    }
    lemma_entered(entries, k, dirs, e);
    lemma_bits(
        flag_if(e.err, flags::ERR),
        flag_if(e.excluded, flags::EXCLUDED),
        flag_if(e.meta.kind == Kind::Dir && ctx.is_foreign(e.meta), flags::OTHER_FS),
        flag_if(is_shared(e) && !is_repeat(e, ls), flags::HARDLINK),
        flag_if(is_repeat(e, ls), flags::HARDLINK_DUP),
        flag_if(is_loop(e, ds), flags::LOOP),
    );
    assert(nodes_for(ctx, parent, entries, links, dirs)[k].flags == entry_flags(ctx, e, ls, ds));
}

/// Whether the directory at `k` was entered before: it is in `dirs`, or before it in the same
/// directory.
pub open spec fn is_entered<F>(entries: Seq<Entry<F>>, k: int, dirs: Set<u128>) -> bool {
    let e = entries[k];
    dirs.contains(key_of(e.meta.dev, e.meta.ino)) || exists|i: int|
        0 <= i < k && !((#[trigger] entries[i]).descend is No) && entries[i].meta.dev == e.meta.dev
            && entries[i].meta.ino == e.meta.ino
}

proof fn lemma_entered<F>(entries: Seq<Entry<F>>, n: int, dirs: Set<u128>, e: Entry<F>)
    requires
        0 <= n <= entries.len(),
    ensures
        dirs_after(entries, n, dirs).contains(key_of(e.meta.dev, e.meta.ino)) <==> dirs.contains(
            key_of(e.meta.dev, e.meta.ino),
        ) || exists|i: int|
            0 <= i < n && !((#[trigger] entries[i]).descend is No) && entries[i].meta.dev
                == e.meta.dev && entries[i].meta.ino == e.meta.ino,
    decreases n,
{
    if n > 0 {
        lemma_entered(entries, n - 1, dirs, e);
        let last = entries[n - 1];
        if entry_key(last) == key_of(e.meta.dev, e.meta.ino) {
            law_keys_are_distinct(last.meta.dev, last.meta.ino, e.meta.dev, e.meta.ino);
        }
        if exists|i: int|
            0 <= i < n && !((#[trigger] entries[i]).descend is No) && entries[i].meta.dev
                == e.meta.dev && entries[i].meta.ino == e.meta.ino {
            let i = choose|i: int|
                0 <= i < n && !((#[trigger] entries[i]).descend is No) && entries[i].meta.dev
                    == e.meta.dev && entries[i].meta.ino == e.meta.ino;
            if i < n - 1 {
                assert(!(entries[i].descend is No));
            }
        }
        if !(last.descend is No) && entry_key(last) == key_of(e.meta.dev, e.meta.ino) {
            assert(!(entries[n - 1].descend is No));
        }
    }
}

/// Every directory that can be entered is read, unless it was entered before: there is a task for
/// it, by its descriptor where it has one and by its path otherwise.
pub proof fn law_every_directory_is_read<F>(
    entries: Seq<Entry<F>>,
    dirs: Set<u128>,
    base: int,
    dir: Seq<u8>,
    n: int,
    k: int,
)
    requires
        0 <= k < n <= entries.len(),
        !(entries[k].descend is No),
        !is_entered(entries, k, dirs),
    ensures
        tasks_for(entries, n, dirs, base, dir).contains(
            (
                base + k,
                match entries[k].descend {
                    Descend::Fd(fd) => Reach::Fd(fd),
                    _ => Reach::Path(joined(dir, clipped(entries[k].name@))),
                },
            ),
        ),
    decreases n,
{
    let e = entries[k];
    let all = tasks_for(entries, n, dirs, base, dir);
    if k == n - 1 {
        lemma_entered(entries, k, dirs, e);
        assert(is_queued(entries, k, dirs));
        assert(all[all.len() - 1].0 == base + k);
    } else {
        law_every_directory_is_read(entries, dirs, base, dir, n - 1, k);
        let some = tasks_for(entries, n - 1, dirs, base, dir);
        let t = (
            base + k,
            match e.descend {
                Descend::Fd(fd) => Reach::Fd(fd),
                _ => Reach::Path(joined(dir, clipped(e.name@))),
            },
        );
        let i = choose|i: int| 0 <= i < some.len() && some[i] == t;
        assert(all[i] == t);
    }
}

/// Nothing else is read: every task is for a directory that can be entered and was not before.
pub proof fn law_only_new_directories_are_read<F>(
    entries: Seq<Entry<F>>,
    dirs: Set<u128>,
    base: int,
    dir: Seq<u8>,
    n: int,
    i: int,
)
    requires
        0 <= n <= entries.len(),
        0 <= i < tasks_for(entries, n, dirs, base, dir).len(),
    ensures
        ({
            let k = tasks_for(entries, n, dirs, base, dir)[i].0 - base;
            &&& 0 <= k < n
            &&& !(entries[k].descend is No)
            &&& !is_entered(entries, k, dirs)
        }),
    decreases n,
{
    if n > 0 {
        let some = tasks_for(entries, n - 1, dirs, base, dir);
        if i < some.len() {
            law_only_new_directories_are_read(entries, dirs, base, dir, n - 1, i);
        } else {
            lemma_entered(entries, n - 1, dirs, entries[n - 1]);
        }
    }
}

/// A directory is entered unless it is excluded, or lies on another filesystem and only one is to be
/// scanned. Nothing but a directory is.
pub proof fn law_what_is_entered(ctx: Ctx, meta: crate::model::Meta, excluded: bool)
    ensures
        ctx.enters(meta, excluded) ==> meta.kind == Kind::Dir && !excluded,
        ctx.opts.one_file_system && meta.dev != ctx.root_dev ==> !ctx.enters(meta, excluded),
        meta.kind == Kind::Dir && !excluded && (meta.dev == ctx.root_dev
            || !ctx.opts.one_file_system) ==> ctx.enters(meta, excluded),
{
}

/// A name is excluded where it is one of those that were given, byte for byte.
pub proof fn law_what_is_excluded(opts: ScanOptions, name: Seq<u8>)
    ensures
        opts.excludes(name) ==> exists|k: int|
            0 <= k < opts.exclude_names@.len() && #[trigger] opts.exclude_names@[k]@ == name,
        forall|k: int|
            0 <= k < opts.exclude_names@.len() ==> opts.excludes(
                #[trigger] opts.exclude_names@[k]@,
            ),
{
}

/// A node as it is after the first `n` entries of the directory `id` are in, where it was `was`.
pub open spec fn is_grown(was: Node, now: Node, above: bool, sum: (nat, nat), n: int) -> bool {
    &&& now.mtime == was.mtime
    &&& now.parent == was.parent
    &&& now.flags == was.flags
    &&& now.name_off == was.name_off
    &&& now.name_len == was.name_len
    &&& if above {
        &&& was.apparent + sum.0 <= u64::MAX ==> now.apparent == was.apparent + sum.0
        &&& was.disk + sum.1 <= u64::MAX ==> now.disk == was.disk + sum.1
        &&& was.items + n <= u32::MAX ==> now.items == was.items + n
    } else {
        now.apparent == was.apparent && now.disk == was.disk && now.items == was.items
    }
}

/// Whether a node is what an entry became.
pub open spec fn is_node_of<F>(
    node: Node,
    names: Seq<u8>,
    id: int,
    e: Entry<F>,
    adds: (nat, nat),
) -> bool {
    &&& node.parent == id
    &&& node.mtime == e.meta.mtime
    &&& node.apparent == adds.0
    &&& node.disk == adds.1
    &&& node.items == 0
    &&& (node.flags & flags::DIR != 0) == (e.meta.kind == Kind::Dir)
    &&& (node.flags & flags::SYMLINK != 0) == (e.meta.kind == Kind::Symlink)
    &&& (node.flags & flags::OTHER != 0) == (e.meta.kind == Kind::Other)
    &&& (node.flags & flags::ERR != 0) == e.err
    &&& node.name_off + node.name_len <= names.len()
    &&& e.name@.len() <= 65535 ==> names.subrange(
        node.name_off as int,
        node.name_off + node.name_len,
    ) == e.name@
}

proof fn lemma_kinds(f: u16, k: u16)
    requires
        f & 7 == 0,
        k == 0 || k == 1 || k == 2 || k == 4,
    ensures
        ((k | f) & 1 != 0) == (k == 1),
        ((k | f) & 2 != 0) == (k == 2),
        ((k | f) & 4 != 0) == (k == 4),
        ((k | f) & 16 != 0) == (f & 16 != 0),
{
    assert(((k | f) & 1 != 0) == (k == 1) && ((k | f) & 2 != 0) == (k == 2) && ((k | f) & 4 != 0)
        == (k == 4) && ((k | f) & 16 != 0) == (f & 16 != 0)) by (bit_vector)
        requires
            f & 7 == 0,
            k == 0 || k == 1 || k == 2 || k == 4,
    ;
}

proof fn lemma_one_more<F>(
    ctx: Ctx,
    m: Model,
    id: int,
    entries: Seq<Entry<F>>,
    links: Set<u128>,
    dirs: Set<u128>,
    k: int,
)
    requires
        0 <= id < m.nodes.len(),
        0 <= k < entries.len(),
        takes(m, nodes_for(ctx, id, entries, links, dirs)[k]),
        is_above(m.nodes, 0, id),
    ensures
        ({
            let after = with_added(m, nodes_for(ctx, id, entries, links, dirs)[k]);
            let more = adds(entries, k, links);
            &&& after.nodes.len() == m.nodes.len() + 1
            &&& after.nodes.len() < 0x1_0000_0000
            &&& m.names.is_prefix_of(after.names)
            &&& after.names.len() <= u32::MAX
            &&& is_node_of(after.nodes[m.nodes.len() as int], after.names, id, entries[k], more)
            &&& forall|a: int|
                0 <= a < m.nodes.len() ==> is_grown(
                    m.nodes[a],
                    #[trigger] after.nodes[a],
                    is_above(m.nodes, a, id),
                    more,
                    1,
                )
            &&& after.nodes[0].apparent == m.nodes[0].apparent + more.0
            &&& after.nodes[0].disk == m.nodes[0].disk + more.1
        }),
{
    let new = nodes_for(ctx, id, entries, links, dirs)[k];
    let after = with_added(m, new);
    let e = entries[k];
    law_what_counts(ctx, id, entries, links, dirs, k);
    law_what_is_flagged(ctx, id, entries, links, dirs, k);
    let fresh = after.nodes[m.nodes.len() as int];
    let ls = links_after(entries, k, links);
    let ds = dirs_after(entries, k, dirs);
    lemma_bits(
        flag_if(e.err, flags::ERR),
        flag_if(e.excluded, flags::EXCLUDED),
        flag_if(e.meta.kind == Kind::Dir && ctx.is_foreign(e.meta), flags::OTHER_FS),
        flag_if(is_shared(e) && !is_repeat(e, ls), flags::HARDLINK),
        flag_if(is_repeat(e, ls), flags::HARDLINK_DUP),
        flag_if(is_loop(e, ds), flags::LOOP),
    );
    lemma_kinds(new.flags, e.meta.kind.as_flags());
    assert(after.names.subrange(fresh.name_off as int, fresh.name_off + fresh.name_len)
        =~= clipped(e.name@));
    assert forall|a: int| 0 <= a < m.nodes.len() implies is_grown(
        m.nodes[a],
        #[trigger] after.nodes[a],
        is_above(m.nodes, a, id),
        adds(entries, k, links),
        1,
    ) by {
        assert(after.nodes[a] == weighed(m.nodes, fresh, a));
    }
    assert(after.nodes[0] == weighed(m.nodes, fresh, 0));
}

/// A directory that is taken in adds itself up: the directory and every one above it, the root among
/// them, gain what its entries add and as many items as there are, and nothing else changes. Each
/// entry becomes a node below it, with its name, its kind, its time and what it adds.
pub proof fn law_a_directory_is_added_up<F>(
    ctx: Ctx,
    m: Model,
    id: int,
    entries: Seq<Entry<F>>,
    links: Set<u128>,
    dirs: Set<u128>,
    n: int,
    after: Model,
)
    requires
        linked(m.nodes, m.kids),
        0 <= id < m.nodes.len(),
        0 <= n <= entries.len(),
        m.names.len() <= u32::MAX,
        grown(m, nodes_for(ctx, id, entries, links, dirs), n) == Some(after),
    ensures
        after.nodes.len() == m.nodes.len() + n,
        m.names.is_prefix_of(after.names),
        after.names.len() <= u32::MAX,
        forall|a: int|
            0 <= a < m.nodes.len() ==> is_grown(
                m.nodes[a],
                #[trigger] after.nodes[a],
                is_above(m.nodes, a, id),
                added(entries, n, links),
                n,
            ),
        forall|k: int|
            0 <= k < n ==> is_node_of(
                #[trigger] after.nodes[m.nodes.len() + k],
                after.names,
                id,
                entries[k],
                adds(entries, k, links),
            ),
        is_above(m.nodes, 0, id),
        is_above(m.nodes, id, id),
        after.nodes[0].disk == m.nodes[0].disk + added(entries, n, links).1,
        after.nodes[0].apparent == m.nodes[0].apparent + added(entries, n, links).0,
        after.nodes.len() < 0x1_0000_0000,
    decreases n,
{
    let list = nodes_for(ctx, id, entries, links, dirs);
    lemma_root_above(m.nodes, m.kids, id);
    if n > 0 {
        if grown(m, list, n - 1) is None {
            lemma_grown_none(m, list, n, n - 1);
        }
        let k = grown(m, list, n - 1)->0;
        law_a_directory_is_added_up(ctx, m, id, entries, links, dirs, n - 1, k);
        assert forall|i: int| 0 <= i < m.nodes.len() implies (#[trigger] m.nodes[i]).parent
            == k.nodes[i].parent by {
            assert(is_grown(
                m.nodes[i],
                k.nodes[i],
                is_above(m.nodes, i, id),
                added(entries, n - 1, links),
                n - 1,
            ));
        }
        lemma_above_frame(m.nodes, k.nodes, 0, id);
        lemma_one_more(ctx, k, id, entries, links, dirs, n - 1);
        lemma_grown_further(m, k, after, id, entries, links, n);
        assert forall|j: int| 0 <= j < n implies is_node_of(
            #[trigger] after.nodes[m.nodes.len() + j],
            after.names,
            id,
            entries[j],
            adds(entries, j, links),
        ) by {
            if j < n - 1 {
                let i = m.nodes.len() + j;
                let was = k.nodes[i];
                assert(is_node_of(was, k.names, id, entries[j], adds(entries, j, links)));
                lemma_not_above(k.nodes, i, id);
                assert(is_grown(
                    was,
                    after.nodes[i],
                    is_above(k.nodes, i, id),
                    adds(entries, n - 1, links),
                    1,
                ));
                assert(after.names.subrange(was.name_off as int, was.name_off + was.name_len)
                    =~= k.names.subrange(was.name_off as int, was.name_off + was.name_len));
            }
        }
    }
}

proof fn lemma_grown_further<F>(
    m: Model,
    k: Model,
    after: Model,
    id: int,
    entries: Seq<Entry<F>>,
    links: Set<u128>,
    n: int,
)
    requires
        0 < n,
        0 <= id < m.nodes.len() <= k.nodes.len(),
        forall|i: int| 0 <= i < m.nodes.len() ==> (#[trigger] m.nodes[i]).parent == k.nodes[i].parent,
        forall|a: int|
            0 <= a < m.nodes.len() ==> is_grown(
                m.nodes[a],
                #[trigger] k.nodes[a],
                is_above(m.nodes, a, id),
                added(entries, n - 1, links),
                n - 1,
            ),
        forall|a: int|
            0 <= a < k.nodes.len() ==> is_grown(
                k.nodes[a],
                #[trigger] after.nodes[a],
                is_above(k.nodes, a, id),
                adds(entries, n - 1, links),
                1,
            ),
    ensures
        forall|a: int|
            0 <= a < m.nodes.len() ==> is_grown(
                m.nodes[a],
                #[trigger] after.nodes[a],
                is_above(m.nodes, a, id),
                added(entries, n, links),
                n,
            ),
{
    assert forall|a: int| 0 <= a < m.nodes.len() implies is_grown(
        m.nodes[a],
        #[trigger] after.nodes[a],
        is_above(m.nodes, a, id),
        added(entries, n, links),
        n,
    ) by {
        assert(is_grown(
            m.nodes[a],
            k.nodes[a],
            is_above(m.nodes, a, id),
            added(entries, n - 1, links),
            n - 1,
        ));
        lemma_above_frame(m.nodes, k.nodes, a, id);
    }
}

/// What comes later is not above.
proof fn lemma_not_above(nodes: Seq<Node>, a: int, d: int)
    requires
        d < a,
    ensures
        !is_above(nodes, a, d),
    decreases d,
{
    if 0 < d < nodes.len() && nodes[d].parent < d {
        lemma_not_above(nodes, a, nodes[d].parent as int);
    }
}

/// What could not be read is counted: every entry of which nothing could be found out, once.
pub proof fn law_what_could_not_be_read_is_counted<F>(
    ctx: Ctx,
    parent: int,
    entries: Seq<Entry<F>>,
    links: Set<u128>,
    dirs: Set<u128>,
    n: int,
)
    requires
        0 <= n <= entries.len(),
    ensures
        errors_in(nodes_for(ctx, parent, entries, links, dirs), n) == unread(entries, n),
    decreases n,
{
    if n > 0 {
        law_what_could_not_be_read_is_counted(ctx, parent, entries, links, dirs, n - 1);
    }
}

/// A directory that could not be read to its end is flagged, and loses nothing of what was read.
pub proof fn law_a_directory_that_broke_off_is_flagged<F>(
    ctx: Ctx,
    m: Model,
    result: DirResult<F>,
    links: Set<u128>,
    dirs: Set<u128>,
)
    requires
        result.id < m.nodes.len(),
    ensures
        model_after(ctx, m, result, links, dirs) == grown(
            model_before(m, result.id as int, result.read_error),
            nodes_for(ctx, result.id as int, result.entries@, links, dirs),
            result.entries@.len() as int,
        ),
        !result.read_error ==> model_before(m, result.id as int, false) == m,
        ({
            let marked = model_before(m, result.id as int, true);
            let node = marked.nodes[result.id as int];
            &&& marked.nodes.len() == m.nodes.len()
            &&& marked.names == m.names
            &&& marked.kids == m.kids
            &&& node == (Node { flags: node.flags, ..m.nodes[result.id as int] })
            &&& node.flags & flags::ERR != 0
            &&& forall|i: int|
                0 <= i < m.nodes.len() && i != result.id ==> #[trigger] marked.nodes[i]
                    == m.nodes[i]
        }),
{
    let f = m.nodes[result.id as int].flags;
    assert((f | 16u16) & 16u16 != 0) by (bit_vector);
}

} // verus!
