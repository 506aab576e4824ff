//! What is reported as identical, told off the nodes and the digests that were found.

use vstd::prelude::*;

use super::{
    arranged, candidates_among, confirmed_of, copies_of, digests_in, disk_keys, given, group_note,
    group_views, groups_in, ids_of, is_candidate, is_part, needs_full, parts_only, picked,
    ranked_groups, reads_whole, same_sizes, sampled_of, settled, size_keys, survivors_of, waste_keys,
    waste_of, with_digest, with_twins, with_whole, Depth, DupGroup, Hashed,
};
use crate::model::{flags, Node, NodeId};
use crate::order::alike::{
    groups_of, has_twin, law_alike_are_grouped, law_groups_are_alike, lemma_order_exists, order_of,
    same_key,
};
use crate::order::{comes_first, lemma_bytes_total, lemma_order_complete};

verus! {

/// Whether something is one of the first `n` items that are to be kept.
spec fn is_kept<T>(items: Seq<T>, keep: spec_fn(int) -> bool, n: int, x: T) -> bool {
    exists|i: int| 0 <= i < n && keep(i) && #[trigger] items[i] == x
}

/// What is picked is what is to be kept, and nothing else.
proof fn lemma_picked<T>(items: Seq<T>, keep: spec_fn(int) -> bool, n: int)
    requires
        0 <= n <= items.len(),
    ensures
        forall|i: int|
            0 <= i < n && keep(i) ==> picked(items, keep, n).contains(#[trigger] items[i]),
        forall|k: int|
            0 <= k < picked(items, keep, n).len() ==> is_kept(
                items,
                keep,
                n,
                #[trigger] picked(items, keep, n)[k],
            ),
    decreases n,
{
    if n > 0 {
        lemma_picked(items, keep, n - 1);
        let all = picked(items, keep, n);
        let some = picked(items, keep, n - 1);
        assert forall|i: int| 0 <= i < n && keep(i) implies all.contains(#[trigger] items[i]) by {
            if i < n - 1 {
                assert(some.contains(items[i]));
                let k = choose|k: int| 0 <= k < some.len() && some[k] == items[i];
                assert(all[k] == items[i]);
            } else {
                assert(all[all.len() - 1] == items[i]);
            }
        }
        assert forall|k: int| 0 <= k < all.len() implies is_kept(
            items,
            keep,
            n,
            #[trigger] all[k],
        ) by {
            if k < some.len() {
                assert(all[k] == some[k]);
                assert(is_kept(items, keep, n - 1, some[k]));
                let i = choose|i: int| 0 <= i < n - 1 && keep(i) && #[trigger] items[i] == some[k];
                assert(items[i] == all[k]);
            } else {
                assert(items[n - 1] == all[k]);
            }
        }
    }
}

/// Whether a node is a file that is looked at: it is reached through directories, is no directory,
/// link or special file, could be read, is not left out and is not a further name of a file, and is
/// not too small to matter.
pub open spec fn is_looked_at(nodes: Seq<Node>, min_size: u64, i: int) -> bool {
    let f = nodes[i].flags;
    &&& is_under_root(nodes, i)
    &&& f & flags::DIR == 0
    &&& f & flags::SYMLINK == 0
    &&& f & flags::OTHER == 0
    &&& f & flags::ERR == 0
    &&& f & flags::EXCLUDED == 0
    &&& f & flags::HARDLINK_DUP == 0
    &&& nodes[i].apparent >= min_size
}

/// Whether directories lead from the root to a node.
pub open spec fn is_under_root(nodes: Seq<Node>, i: int) -> bool
    decreases i,
{
    if i <= 0 || i >= nodes.len() || nodes[i].parent >= i {
        false
    } else if nodes[i].parent == 0 {
        true
    } else {
        nodes[nodes[i].parent as int].flags & flags::DIR != 0 && is_under_root(
            nodes,
            nodes[i].parent as int,
        )
    }
}

proof fn lemma_reached(nodes: Seq<Node>, i: int)
    ensures
        super::is_reached(nodes, i) == is_under_root(nodes, i),
    decreases i,
{
    if 0 < i < nodes.len() && nodes[i].parent < i && nodes[i].parent != 0 {
        lemma_reached(nodes, nodes[i].parent as int);
    }
}

/// The files that are looked at are those, and no others.
pub proof fn law_which_files_are_looked_at(nodes: Seq<Node>, min_size: u64, n: int, i: NodeId)
    requires
        0 <= n <= nodes.len() <= 0xffff_ffff,
    ensures
        candidates_among(nodes, min_size, n).contains(i) == (i < n && is_looked_at(
            nodes,
            min_size,
            i as int,
        )),
    decreases n,
{
    if n > 0 {
        law_which_files_are_looked_at(nodes, min_size, n - 1, i);
        lemma_reached(nodes, n - 1);
        let f = nodes[n - 1].flags;
        assert((f & (1u16 | 2u16 | 4u16 | 16u16 | 128u16 | 64u16) == 0) == (f & 1 == 0 && f & 2 == 0
            && f & 4 == 0 && f & 16 == 0 && f & 128 == 0 && f & 64 == 0)) by (bit_vector);
        assert(is_candidate(nodes, min_size, n - 1) == is_looked_at(nodes, min_size, n - 1));
        let all = candidates_among(nodes, min_size, n);
        let some = candidates_among(nodes, min_size, n - 1);
        if some.contains(i) {
            let k = choose|k: int| 0 <= k < some.len() && some[k] == i;
            assert(all[k] == i);
        }
        if i == n - 1 && is_candidate(nodes, min_size, n - 1) {
            assert(all[all.len() - 1] == i);
        }
        if all.contains(i) && !some.contains(i) {
            let k = choose|k: int| 0 <= k < all.len() && all[k] == i;
            if k < some.len() {
                assert(some[k] == i);
            }
        }
    }
}

/// A file is sampled exactly where another one that is looked at has the same size.
pub proof fn law_files_of_one_size_are_sampled(nodes: Seq<Node>, min_size: u64, i: NodeId)
    requires
        nodes.len() <= 0xffff_ffff,
    ensures
        same_sizes(nodes, min_size).contains(i) == (i < nodes.len() && is_looked_at(
            nodes,
            min_size,
            i as int,
        ) && exists|j: int|
            0 <= j < nodes.len() && j != i && #[trigger] is_looked_at(nodes, min_size, j)
                && nodes[j].apparent == nodes[i as int].apparent),
{
    let n = nodes.len() as int;
    let files = candidates_among(nodes, min_size, n);
    let keys = size_keys(nodes, files);
    let keep = with_twins(keys);
    law_which_files_are_looked_at(nodes, min_size, n, i);
    super::lemma_candidates_are_files(nodes, min_size, n);
    lemma_picked(files, keep, files.len() as int);
    let all = same_sizes(nodes, min_size);
    if all.contains(i) {
        let k = choose|k: int| 0 <= k < all.len() && all[k] == i;
        assert(is_kept(files, keep, files.len() as int, all[k]));
        let a = choose|a: int| 0 <= a < files.len() && keep(a) && #[trigger] files[a] == all[k];
        let b = choose|b: int| 0 <= b < keys.len() && b != a && #[trigger] same_key(keys, a, b);
        law_which_files_are_looked_at(nodes, min_size, n, files[b]);
        assert(files.contains(files[a]));
        assert(files.contains(files[b]));
        if a < b {
            assert(files[a] < files[b]);
        } else {
            assert(files[b] < files[a]);
        }
        assert(is_looked_at(nodes, min_size, files[b] as int));
    }
    if i < n && is_looked_at(nodes, min_size, i as int) && exists|j: int|
        0 <= j < n && j != i && #[trigger] is_looked_at(nodes, min_size, j) && nodes[j].apparent
            == nodes[i as int].apparent {
        let j = choose|j: int|
            0 <= j < n && j != i && #[trigger] is_looked_at(nodes, min_size, j) && nodes[j].apparent
                == nodes[i as int].apparent;
        law_which_files_are_looked_at(nodes, min_size, n, j as NodeId);
        let a = choose|a: int| 0 <= a < files.len() && files[a] == i;
        let b = choose|b: int| 0 <= b < files.len() && files[b] == j as NodeId;
        assert(same_key(keys, a, b));
        assert(has_twin(keys, a));
        assert(keep(a));
        assert(all.contains(files[a]));
    }
}

/// A file goes on after its ends were read exactly where those of another came out the same. One
/// whose ends could not be read does not.
pub proof fn law_files_with_the_same_ends_go_on(
    ids: Seq<NodeId>,
    found: Map<NodeId, [u8; 32]>,
    h: Hashed,
)
    requires
        ids.no_duplicates(),
    ensures
        survivors_of(sampled_of(ids, found)).contains(h) == (ids.contains(h.id)
            && found.contains_key(h.id) && found[h.id] == h.digest && exists|other: NodeId|
            #[trigger] ids.contains(other) && other != h.id && found.contains_key(other)
                && found[other]@ == h.digest@),
{
    let items = given(ids, found);
    let keep = with_digest(ids, found);
    let list = sampled_of(ids, found);
    lemma_picked(items, keep, ids.len() as int);
    let twins = with_twins(list);
    let all = survivors_of(list);
    lemma_picked(list, twins, list.len() as int);
    lemma_each_once(items, keep, ids, found);
    if all.contains(h) {
        let k = choose|k: int| 0 <= k < all.len() && all[k] == h;
        assert(is_kept(list, twins, list.len() as int, all[k]));
        let a = choose|a: int| 0 <= a < list.len() && twins(a) && #[trigger] list[a] == all[k];
        let b = choose|b: int| 0 <= b < list.len() && b != a && #[trigger] same_key(list, a, b);
        assert(is_kept(items, keep, ids.len() as int, list[a]));
        assert(is_kept(items, keep, ids.len() as int, list[b]));
        let x = choose|x: int| 0 <= x < ids.len() && keep(x) && #[trigger] items[x] == list[a];
        let y = choose|y: int| 0 <= y < ids.len() && keep(y) && #[trigger] items[y] == list[b];
        lemma_bytes_total(list[a].digest@, list[b].digest@);
        assert(list[a].id != list[b].id);
        assert(ids.contains(ids[x]));
        assert(ids.contains(ids[y]));
        assert(ids[y] == list[b].id);
    }
    if ids.contains(h.id) && found.contains_key(h.id) && found[h.id] == h.digest && exists|
        other: NodeId,
    |
        #[trigger] ids.contains(other) && other != h.id && found.contains_key(other)
            && found[other]@ == h.digest@ {
        let other = choose|other: NodeId|
            #[trigger] ids.contains(other) && other != h.id && found.contains_key(other)
                && found[other]@ == h.digest@;
        let x = choose|x: int| 0 <= x < ids.len() && ids[x] == h.id;
        let y = choose|y: int| 0 <= y < ids.len() && ids[y] == other;
        assert(keep(x) && keep(y));
        assert(items[x] == h);
        assert(list.contains(items[x]));
        assert(list.contains(items[y]));
        let a = choose|a: int| 0 <= a < list.len() && list[a] == items[x];
        let b = choose|b: int| 0 <= b < list.len() && list[b] == items[y];
        lemma_bytes_total(list[a].digest@, list[b].digest@);
        assert(same_key(list, a, b));
        assert(has_twin(list, a));
        assert(twins(a));
        assert(all.contains(list[a]));
    }
}

/// No file is in a list of digests twice.
proof fn lemma_each_once(
    items: Seq<Hashed>,
    keep: spec_fn(int) -> bool,
    ids: Seq<NodeId>,
    found: Map<NodeId, [u8; 32]>,
)
    requires
        ids.no_duplicates(),
        items == given(ids, found),
    ensures
        forall|a: int, b: int|
            0 <= a < b < picked(items, keep, ids.len() as int).len() ==> (#[trigger] picked(
                items,
                keep,
                ids.len() as int,
            )[a]).id != (#[trigger] picked(items, keep, ids.len() as int)[b]).id,
{
    lemma_each_once_among(items, keep, ids, ids.len() as int);
}

proof fn lemma_each_once_among(
    items: Seq<Hashed>,
    keep: spec_fn(int) -> bool,
    ids: Seq<NodeId>,
    n: int,
)
    requires
        ids.no_duplicates(),
        items.len() == ids.len(),
        forall|i: int| 0 <= i < ids.len() ==> (#[trigger] items[i]).id == ids[i],
        0 <= n <= ids.len(),
    ensures
        forall|a: int, b: int|
            0 <= a < b < picked(items, keep, n).len() ==> (#[trigger] picked(items, keep, n)[a]).id
                != (#[trigger] picked(items, keep, n)[b]).id,
    decreases n,
{
    if n > 0 {
        lemma_each_once_among(items, keep, ids, n - 1);
        lemma_picked(items, keep, n - 1);
        let all = picked(items, keep, n);
        let some = picked(items, keep, n - 1);
        assert forall|a: int, b: int| 0 <= a < b < all.len() implies (#[trigger] all[a]).id != (
        #[trigger] all[b]).id by {
            assert(all[a] == some[a]);
            if b < some.len() {
                assert(all[b] == some[b]);
            } else {
                assert(is_kept(items, keep, n - 1, some[a]));
                let i = choose|i: int|
                    0 <= i < n - 1 && keep(i) && #[trigger] items[i] == some[a];
                assert(items[i].id == ids[i]);
                assert(items[n - 1].id == ids[n - 1]);
            }
        }
    }
}

/// A file that its two samples do not cover, one of more than eight kilobytes, is read whole where
/// its ends agree with another's; one that they do cover has been.
pub proof fn law_every_long_file_is_read_whole(nodes: Seq<Node>, survivors: Seq<Hashed>, id: NodeId)
    ensures
        needs_full(nodes, survivors).contains(id) == exists|k: int|
            0 <= k < survivors.len() && (#[trigger] survivors[k]).id == id
                && nodes[id as int].apparent > 8192,
        forall|size: u64| #[trigger] reads_whole(size, Depth::Whole),
        forall|size: u64| #[trigger] reads_whole(size, Depth::Ends) == (size <= 8192),
{
    let items = ids_of(survivors);
    let keep = parts_only(nodes, survivors);
    let all = needs_full(nodes, survivors);
    lemma_picked(items, keep, survivors.len() as int);
    if all.contains(id) {
        let k = choose|k: int| 0 <= k < all.len() && all[k] == id;
        assert(is_kept(items, keep, survivors.len() as int, all[k]));
        let i = choose|i: int| 0 <= i < items.len() && keep(i) && #[trigger] items[i] == all[k];
        assert(survivors[i].id == id);
    }
    if exists|k: int|
        0 <= k < survivors.len() && (#[trigger] survivors[k]).id == id && nodes[id as int].apparent
            > 8192 {
        let k = choose|k: int|
            0 <= k < survivors.len() && (#[trigger] survivors[k]).id == id
                && nodes[id as int].apparent > 8192;
        assert(keep(k));
        assert(items[k] == id);
        assert(all.contains(items[k]));
    }
}

/// What a file is reported by is a digest of all of it: of what was read in full where it is long,
/// and of its two samples where they cover it. A long file that could not be read in full is left
/// out.
pub proof fn law_a_file_is_reported_by_all_of_it(
    nodes: Seq<Node>,
    survivors: Seq<Hashed>,
    found: Map<NodeId, [u8; 32]>,
    h: Hashed,
)
    ensures
        confirmed_of(nodes, survivors, found).contains(h) == exists|k: int|
            {
                &&& 0 <= k < survivors.len()
                &&& (#[trigger] survivors[k]).id == h.id
                &&& if nodes[h.id as int].apparent > 8192 {
                    found.contains_key(h.id) && h.digest == found[h.id]
                } else {
                    h.digest == survivors[k].digest
                }
            },
{
    let items = settled(nodes, survivors, found);
    let keep = with_whole(nodes, survivors, found);
    let all = confirmed_of(nodes, survivors, found);
    lemma_picked(items, keep, survivors.len() as int);
    if all.contains(h) {
        let k = choose|k: int| 0 <= k < all.len() && all[k] == h;
        assert(is_kept(items, keep, survivors.len() as int, all[k]));
        let i = choose|i: int|
            0 <= i < survivors.len() && keep(i) && #[trigger] items[i] == all[k];
        assert(survivors[i].id == h.id);
    }
    if exists|k: int|
        {
            &&& 0 <= k < survivors.len()
            &&& (#[trigger] survivors[k]).id == h.id
            &&& if nodes[h.id as int].apparent > 8192 {
                found.contains_key(h.id) && h.digest == found[h.id]
            } else {
                h.digest == survivors[k].digest
            }
        } {
        let k = choose|k: int|
            {
                &&& 0 <= k < survivors.len()
                &&& (#[trigger] survivors[k]).id == h.id
                &&& if nodes[h.id as int].apparent > 8192 {
                    found.contains_key(h.id) && h.digest == found[h.id]
                } else {
                    h.digest == survivors[k].digest
                }
            };
        assert(is_part(nodes, h.id) == (nodes[h.id as int].apparent > 8192));
        assert(keep(k));
        assert(items[k] == h);
        assert(all.contains(items[k]));
    }
}

/// The digest that counts for a file is the last one that was found for it.
pub proof fn law_digests_are_taken_as_found(found: Seq<Hashed>, n: int, id: NodeId)
    requires
        0 <= n <= found.len(),
    ensures
        digests_in(found, n).contains_key(id) == exists|k: int|
            0 <= k < n && (#[trigger] found[k]).id == id,
        forall|k: int|
            0 <= k < n && (#[trigger] found[k]).id == id && (forall|j: int|
                k < j < n ==> (#[trigger] found[j]).id != id) ==> digests_in(found, n)[id]
                == found[k].digest,
    decreases n,
{
    if n > 0 {
        law_digests_are_taken_as_found(found, n - 1, id);
        if found[n - 1].id == id {
            assert(digests_in(found, n).contains_key(id));
        } else {
            if exists|k: int| 0 <= k < n && (#[trigger] found[k]).id == id {
                let k = choose|k: int| 0 <= k < n && (#[trigger] found[k]).id == id;
                assert(k < n - 1 && found[k].id == id);
            }
        }
    }
}

/// What is put in order stays what it was.
proof fn lemma_arranged<T>(items: Seq<T>, p: Seq<int>)
    requires
        p.len() == items.len(),
        forall|i: int| 0 <= i < p.len() ==> 0 <= #[trigger] p[i] < items.len(),
        forall|i: int| 0 <= i < items.len() ==> p.contains(i),
    ensures
        arranged(items, p).len() == items.len(),
        forall|x: T| #[trigger] arranged(items, p).contains(x) == items.contains(x),
{
    assert forall|x: T| #[trigger] arranged(items, p).contains(x) == items.contains(x) by {
        if arranged(items, p).contains(x) {
            let i = choose|i: int| 0 <= i < p.len() && arranged(items, p)[i] == x;
            assert(items[p[i]] == x);
        }
        if items.contains(x) {
            let k = choose|k: int| 0 <= k < items.len() && items[k] == x;
            assert(p.contains(k));
            let i = choose|i: int| 0 <= i < p.len() && p[i] == k;
            assert(arranged(items, p)[i] == x);
        }
    }
}

proof fn lemma_copies(nodes: Seq<Node>, ids: Seq<NodeId>)
    ensures
        copies_of(nodes, ids).len() == ids.len(),
        forall|x: NodeId| #[trigger] copies_of(nodes, ids).contains(x) == ids.contains(x),
        forall|i: int, j: int|
            0 <= i < j < ids.len() ==> nodes[#[trigger] copies_of(nodes, ids)[i] as int].disk
                >= nodes[#[trigger] copies_of(nodes, ids)[j] as int].disk,
{
    let keys = disk_keys(nodes, ids);
    let p = order_of(keys);
    lemma_order_exists(keys);
    assert forall|i: int| 0 <= i < ids.len() implies p.contains(i) by {
        lemma_order_complete(keys, p, i);
    }
    lemma_arranged(ids, p);
    assert forall|i: int, j: int| 0 <= i < j < ids.len() implies nodes[#[trigger] copies_of(
        nodes,
        ids,
    )[i] as int].disk >= nodes[#[trigger] copies_of(nodes, ids)[j] as int].disk by {
        assert(comes_first(keys, p[i], p[j]));
    }
}

/// A group is one of those that were made, for some stretch of equal digests.
proof fn lemma_group(nodes: Seq<Node>, list: Seq<Hashed>, groups: Seq<DupGroup>, i: int) -> (g: int)
    requires
        group_views(groups) == ranked_groups(nodes, list),
        0 <= i < groups.len(),
    ensures
        0 <= g < groups_of(list).len(),
        groups[i]@ == group_note(nodes, arranged(ids_of(list), groups_of(list)[g])),
{
    let all = groups_in(nodes, list);
    let keys = waste_keys(all);
    let p = order_of(keys);
    lemma_order_exists(keys);
    assert(group_views(groups).len() == groups.len());
    assert(ranked_groups(nodes, list).len() == p.len());
    assert(group_views(groups)[i] == groups[i]@);
    assert(ranked_groups(nodes, list)[i] == all[p[i]]);
    p[i]
}

/// What is reported together is identical: there are two files in a group at least, and any two of
/// them have one digest.
pub proof fn law_what_is_reported_together_is_identical(
    nodes: Seq<Node>,
    list: Seq<Hashed>,
    groups: Seq<DupGroup>,
    i: int,
    a: int,
    b: int,
)
    requires
        group_views(groups) == ranked_groups(nodes, list),
        0 <= i < groups.len(),
        0 <= a < groups[i].nodes@.len(),
        0 <= b < groups[i].nodes@.len(),
    ensures
        groups[i].nodes@.len() >= 2,
        exists|x: int, y: int|
            {
                &&& 0 <= x < list.len()
                &&& 0 <= y < list.len()
                &&& (#[trigger] list[x]).id == groups[i].nodes@[a]
                &&& (#[trigger] list[y]).id == groups[i].nodes@[b]
                &&& list[x].digest@ == list[y].digest@
            },
{
    let g = lemma_group(nodes, list, groups, i);
    let run = groups_of(list)[g];
    let ids = arranged(ids_of(list), run);
    law_groups_are_alike(list, g);
    lemma_copies(nodes, ids);
    let copies = copies_of(nodes, ids);
    assert(groups[i]@.nodes == copies);
    assert(copies.contains(copies[a]));
    assert(copies.contains(copies[b]));
    let p = choose|p: int| 0 <= p < ids.len() && ids[p] == copies[a];
    let q = choose|q: int| 0 <= q < ids.len() && ids[q] == copies[b];
    let (x, y) = (run[p], run[q]);
    assert(same_key(list, run[p], run[q]));
    lemma_bytes_total(list[x].digest@, list[y].digest@);
    assert(list[x].id == copies[a]);
    assert(list[y].id == copies[b]);
}

/// What is identical is reported together: two files with one digest are in one group.
pub proof fn law_what_is_identical_is_reported_together(
    nodes: Seq<Node>,
    list: Seq<Hashed>,
    groups: Seq<DupGroup>,
    x: int,
    y: int,
)
    requires
        group_views(groups) == ranked_groups(nodes, list),
        0 <= x < list.len(),
        0 <= y < list.len(),
        x != y,
        list[x].digest@ == list[y].digest@,
    ensures
        exists|i: int|
            0 <= i < groups.len() && (#[trigger] groups[i]).nodes@.contains(list[x].id)
                && groups[i].nodes@.contains(list[y].id),
{
    lemma_bytes_total(list[x].digest@, list[y].digest@);
    assert(same_key(list, x, y));
    law_alike_are_grouped(list, x, y);
    let g = choose|g: int|
        0 <= g < groups_of(list).len() && (#[trigger] groups_of(list)[g]).contains(x) && groups_of(
            list,
        )[g].contains(y);
    let run = groups_of(list)[g];
    let ids = arranged(ids_of(list), run);
    let s = choose|s: int| 0 <= s < run.len() && run[s] == x;
    let t = choose|t: int| 0 <= t < run.len() && run[t] == y;
    assert(ids[s] == list[x].id);
    assert(ids[t] == list[y].id);
    lemma_copies(nodes, ids);
    let all = groups_in(nodes, list);
    let keys = waste_keys(all);
    let p = order_of(keys);
    lemma_order_exists(keys);
    lemma_order_complete(keys, p, g);
    let i = choose|i: int| 0 <= i < p.len() && p[i] == g;
    assert(group_views(groups).len() == groups.len());
    assert(group_views(groups)[i] == groups[i]@);
    assert(ranked_groups(nodes, list)[i] == all[g]);
    assert(groups[i]@.nodes == copies_of(nodes, ids));
}

/// What the copies from the second to the `n`th of a group take up, as far as removing them gives it
/// back: one that further names point at gives back nothing.
pub open spec fn freed_by(nodes: Seq<Node>, copies: Seq<NodeId>, n: int) -> nat
    decreases n,
{
    if n <= 1 {
        0
    } else {
        let node = nodes[copies[n - 1] as int];
        freed_by(nodes, copies, n - 1) + if node.flags & flags::HARDLINK != 0 {
            0nat
        } else {
            node.disk as nat
        }
    }
}

proof fn lemma_freed(nodes: Seq<Node>, copies: Seq<NodeId>, n: int)
    ensures
        waste_of(nodes, copies, n) == freed_by(nodes, copies, n),
    decreases n,
{
    if n > 1 {
        lemma_freed(nodes, copies, n - 1);
    }
}

/// What is said of a group: how large its files are, and what removing all but the first of them
/// would give back. The copy that takes up the most comes first, and the group that wastes the most.
pub proof fn law_what_is_said_of_a_group(
    nodes: Seq<Node>,
    list: Seq<Hashed>,
    groups: Seq<DupGroup>,
    i: int,
    j: int,
)
    requires
        group_views(groups) == ranked_groups(nodes, list),
        0 <= i <= j < groups.len(),
    ensures
        groups[i].size == nodes[groups[i].nodes@[0] as int].apparent,
        groups[i].wasted == freed_by(nodes, groups[i].nodes@, groups[i].nodes@.len() as int),
        groups[j].size == nodes[groups[j].nodes@[0] as int].apparent,
        groups[j].wasted == freed_by(nodes, groups[j].nodes@, groups[j].nodes@.len() as int),
        groups[i].wasted >= groups[j].wasted,
        forall|a: int, b: int|
            0 <= a < b < groups[i].nodes@.len() ==> nodes[#[trigger] groups[i].nodes@[a] as int].disk
                >= nodes[#[trigger] groups[i].nodes@[b] as int].disk,
{
    let g = lemma_group(nodes, list, groups, i);
    let h = lemma_group(nodes, list, groups, j);
    let ids = arranged(ids_of(list), groups_of(list)[g]);
    lemma_copies(nodes, ids);
    lemma_freed(nodes, groups[i].nodes@, groups[i].nodes@.len() as int);
    lemma_freed(nodes, groups[j].nodes@, groups[j].nodes@.len() as int);
    let all = groups_in(nodes, list);
    let keys = waste_keys(all);
    let p = order_of(keys);
    lemma_order_exists(keys);
    assert(group_views(groups).len() == groups.len());
    assert(ranked_groups(nodes, list).len() == p.len());
    if i < j {
        assert(comes_first(keys, p[i], p[j]));
    }
    assert(group_views(groups)[i] == groups[i]@);
    assert(group_views(groups)[j] == groups[j]@);
    assert(ranked_groups(nodes, list)[i] == all[p[i]]);
    assert(ranked_groups(nodes, list)[j] == all[p[j]]);
}

/// Two files that are reported as identical are: where they are long, what was found when both were
/// read in full is the same.
pub proof fn law_reported_files_were_compared_whole(
    nodes: Seq<Node>,
    survivors: Seq<Hashed>,
    found: Map<NodeId, [u8; 32]>,
    groups: Seq<DupGroup>,
    i: int,
    a: int,
    b: int,
)
    requires
        group_views(groups) == ranked_groups(nodes, confirmed_of(nodes, survivors, found)),
        0 <= i < groups.len(),
        0 <= a < groups[i].nodes@.len(),
        0 <= b < groups[i].nodes@.len(),
        nodes[groups[i].nodes@[a] as int].apparent > 8192,
        nodes[groups[i].nodes@[b] as int].apparent > 8192,
    ensures
        found.contains_key(groups[i].nodes@[a]),
        found.contains_key(groups[i].nodes@[b]),
        found[groups[i].nodes@[a]]@ == found[groups[i].nodes@[b]]@,
{
    let list = confirmed_of(nodes, survivors, found);
    law_what_is_reported_together_is_identical(nodes, list, groups, i, a, b);
    let (x, y) = choose|x: int, y: int|
        {
            &&& 0 <= x < list.len()
            &&& 0 <= y < list.len()
            &&& (#[trigger] list[x]).id == groups[i].nodes@[a]
            &&& (#[trigger] list[y]).id == groups[i].nodes@[b]
            &&& list[x].digest@ == list[y].digest@
        };
    assert(list.contains(list[x]));
    assert(list.contains(list[y]));
    law_a_file_is_reported_by_all_of_it(nodes, survivors, found, list[x]);
    law_a_file_is_reported_by_all_of_it(nodes, survivors, found, list[y]);
}

} // verus!
