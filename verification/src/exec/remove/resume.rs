//! What a deletion does to a disk that nothing else writes to, from its first step to wherever it
//! stops.

use vstd::prelude::*;

use super::whole::{
    accounts, answers, is_disk, is_for_directory, law_a_finished_removal_takes_the_whole_tree,
    law_a_resumed_deletion_ends_as_a_clean_one, law_an_interrupted_removal_leaves_no_orphans,
    left_by, lemma_total_without, stands, total, without,
};
use super::{delete_step, target, DeleteAsk, DeleteReply, DeleteRequest, Removal};
use crate::exec::disk::{
    held, is_closed, is_dir, is_elsewhere_same, is_kept, is_left, lemma_elsewhere_same,
    lemma_is_left, top_of, tree, Disk,
};
use crate::exec::run::whole::End;
use crate::exec::{still_matches, Step};
use crate::path::components;
use crate::plan::{Ident, Op};
use crate::stat::Stat;

verus! {

/// The names on the way to what an operation is about.
pub open spec fn way_of(op: Op) -> Seq<Seq<u8>> {
    components(op.from())
}

/// The request that an operation is carried out by.
pub open spec fn request_of(op: Op, strict: bool) -> DeleteRequest {
    DeleteRequest {
        path: op->Delete_path,
        ident: op->Delete_ident,
        est_bytes: op->Delete_est_bytes,
        strict,
        dry_run: false,
    }
}

/// What the tree at the end of a way takes up.
pub open spec fn space_at(d: Disk, w: Seq<Seq<u8>>) -> nat {
    total(held(tree(d, w), w.last()))
}

/// Whether a tree can be removed: it is whole, and there is an end to it.
pub open spec fn is_sound_at(d: Disk, w: Seq<Seq<u8>>) -> bool {
    &&& is_closed(tree(d, w))
    &&& held(tree(d, w), w.last()).dom().finite()
}

/// Whether a deletion has been made.
pub open spec fn is_deleted(op: Op, s: Disk, t: Disk) -> bool {
    &&& is_elsewhere_same(s, t, set![way_of(op)])
    &&& tree(t, way_of(op)) == Map::<Seq<Seq<u8>>, Stat>::empty()
}

/// Whether a deletion that was begun on one disk can have left the other, after it had freed so
/// much: what it is about was what was staged, and less of it is there.
pub open spec fn is_part_deleted(op: Op, s: Disk, t: Disk, freed: nat) -> bool {
    let w = way_of(op);
    &&& op is Delete
    &&& target(op.from()) is Ok
    &&& is_sound_at(s, w)
    &&& is_sound_at(t, w)
    &&& top_of(tree(s, w)) matches Some(x) ==> still_matches(
        op->Delete_ident,
        Ident::spec_of(x),
        true,
    )
    &&& is_elsewhere_same(s, t, set![w])
    &&& is_left(tree(s, w), tree(t, w))
    &&& freed + space_at(t, w) <= space_at(s, w)
}

/// Whether a removal of the directory at the end of a way, which takes up `size` itself, turns one
/// disk into the other as far as it has come.
pub open spec fn removes(removal: Removal, w: Seq<Seq<u8>>, size: u64, a: Disk, b: Disk) -> bool {
    &&& removal.wf()
    &&& removal.root@ == w.last()
    &&& removal.size@ == size
    &&& accounts(removal, held(tree(a, w), w.last()))
    &&& is_elsewhere_same(a, b, set![w])
    &&& is_less(tree(a, w), tree(b, w), w.last(), removal.cleared@)
}

/// Whether a tree is another without what was cleared of it.
pub open spec fn is_less(
    a: Map<Seq<Seq<u8>>, Stat>,
    b: Map<Seq<Seq<u8>>, Stat>,
    name: Seq<u8>,
    cleared: Set<Seq<Seq<u8>>>,
) -> bool {
    &&& forall|r: Seq<Seq<u8>>| #[trigger]
        b.contains_key(r) <==> a.contains_key(r) && !cleared.contains(seq![name] + r)
    &&& forall|r: Seq<Seq<u8>>| #[trigger] b.contains_key(r) ==> is_kept(a[r], b[r])
}

/// Whether a deletion goes from one reply and disk to the next.
pub open spec fn passes(
    req: DeleteRequest,
    w: Seq<Seq<u8>>,
    a: (DeleteReply, Disk),
    b: (DeleteReply, Disk),
) -> bool {
    let ask = delete_step(req, a.0);
    &&& answers(ask, top_of(tree(a.1, w)), b.0, top_of(tree(b.1, w)))
    &&& if ask is Unlink {
        &&& is_elsewhere_same(a.1, b.1, set![w])
        &&& tree(b.1, w) == tree(a.1, w).remove(Seq::empty())
    } else {
        b.1 == a.1
    }
}

/// Whether a deletion that has come so far stops there, with that disk.
pub open spec fn stops(
    req: DeleteRequest,
    w: Seq<Seq<u8>>,
    last: (DeleteReply, Disk),
    end: End,
    d: Disk,
) -> bool {
    let ask = delete_step(req, last.0);
    match end {
        End::Done(freed) => {
            ||| ask == DeleteAsk::Finished(Step::Done(freed)) && d == last.1
            ||| exists|removal: Removal|
                {
                    &&& ask is RemoveTree
                    &&& #[trigger] removes(removal, w, ask->RemoveTree_disk, last.1, d)
                    &&& removal.all_cleared()
                    &&& removal.freed == freed
                }
        },
        End::Paused(freed) => {
            ||| ask == DeleteAsk::Finished(Step::Paused(freed)) && d == last.1
            ||| exists|removal: Removal|
                {
                    &&& ask is RemoveTree
                    &&& #[trigger] removes(removal, w, ask->RemoveTree_disk, last.1, d)
                    &&& removal.freed == freed
                }
        },
        End::Failed(error) => ask == DeleteAsk::Failed(error@),
        End::Cut => {
            ||| d == last.1
            ||| exists|removal: Removal|
                ask is RemoveTree && #[trigger] removes(
                    removal,
                    w,
                    ask->RemoveTree_disk,
                    last.1,
                    d,
                )
        },
    }
}

/// Whether a deletion, carried out from one disk, goes by these replies and disks and then stops
/// with the other.
pub open spec fn goes(
    op: Op,
    strict: bool,
    a: Disk,
    chain: Seq<(DeleteReply, Disk)>,
    end: End,
    b: Disk,
) -> bool {
    let req = request_of(op, strict);
    let w = way_of(op);
    &&& chain.len() > 0
    &&& chain[0] == (DeleteReply::Start, a)
    &&& forall|i: int| 1 <= i < chain.len() ==> passes(req, w, chain[i - 1], #[trigger] chain[i])
    &&& stops(req, w, chain.last(), end, b)
}

/// Whether carrying out a deletion can end so.
pub open spec fn is_carried_out(op: Op, strict: bool, a: Disk, end: End, b: Disk) -> bool {
    exists|chain: Seq<(DeleteReply, Disk)>| #[trigger] goes(op, strict, a, chain, end, b)
}

/// A whole tree is a disk, by the names on the way.
proof fn lemma_held_is_disk(tree: Map<Seq<Seq<u8>>, Stat>, name: Seq<u8>)
    requires
        is_closed(tree),
    ensures
        is_disk(held(tree, name)),
{
    reveal(is_closed);
    let disk = held(tree, name);
    assert forall|q: Seq<Seq<u8>>| #[trigger] disk.contains_key(q) && q.len() > 1 implies
        disk.contains_key(q.drop_last()) && disk[q.drop_last()].0 by {
        let r = q.drop_first();
        assert(tree.contains_key(r));
        assert(q.drop_last().drop_first() =~= r.drop_last());
    }
}

proof fn lemma_disk_is_closed(tree: Map<Seq<Seq<u8>>, Stat>, name: Seq<u8>)
    requires
        is_disk(held(tree, name)),
    ensures
        is_closed(tree),
{
    reveal(is_closed);
    let disk = held(tree, name);
    assert forall|r: Seq<Seq<u8>>| #[trigger] tree.contains_key(r) && r.len() > 0 implies
        tree.contains_key(r.drop_last()) && is_dir(tree[r.drop_last()]) by {
        let q = seq![name] + r;
        assert(q.drop_first() =~= r);
        assert(disk.contains_key(q));
        assert(q.drop_last().drop_first() =~= r.drop_last());
        assert(disk.contains_key(q.drop_last()));
    }
}

/// What is left of a tree is left of the disk that it is.
proof fn lemma_held_left(
    a: Map<Seq<Seq<u8>>, Stat>,
    b: Map<Seq<Seq<u8>>, Stat>,
    name: Seq<u8>,
    cleared: Set<Seq<Seq<u8>>>,
)
    requires
        is_less(a, b, name, cleared),
    ensures
        held(b, name) == held(a, name).remove_keys(cleared),
{
    let left = held(a, name).remove_keys(cleared);
    assert forall|q: Seq<Seq<u8>>| #[trigger] held(b, name).contains_key(q)
        == left.contains_key(q) by {
        if q.len() > 0 && q[0] == name {
            assert(seq![name] + q.drop_first() =~= q);
            assert(b.contains_key(q.drop_first()) == (a.contains_key(q.drop_first())
                && !cleared.contains(q)));
        }
    }
    assert forall|q: Seq<Seq<u8>>| #[trigger] held(b, name).contains_key(q) implies held(b, name)[q]
        == left[q] by {
        assert(b.contains_key(q.drop_first()));
        assert(is_kept(a[q.drop_first()], b[q.drop_first()]));
    }
    assert(held(b, name) =~= left);
}

proof fn lemma_nothing_held(tree: Map<Seq<Seq<u8>>, Stat>, name: Seq<u8>)
    requires
        forall|q: Seq<Seq<u8>>| !#[trigger] held(tree, name).contains_key(q),
    ensures
        tree == Map::<Seq<Seq<u8>>, Stat>::empty(),
{
    assert forall|r: Seq<Seq<u8>>| !#[trigger] tree.contains_key(r) by {
        let q = seq![name] + r;
        assert(q.drop_first() =~= r);
        assert(!held(tree, name).contains_key(q));
    }
    assert(tree =~= Map::<Seq<Seq<u8>>, Stat>::empty());
}

/// What a removal leaves of a tree, and what that frees.
pub proof fn lemma_removes(removal: Removal, w: Seq<Seq<u8>>, size: u64, a: Disk, b: Disk)
    requires
        removes(removal, w, size, a, b),
        is_sound_at(a, w),
        top_of(tree(a, w)) matches Some(x) && is_dir(x),
    ensures
        is_sound_at(b, w),
        is_left(tree(a, w), tree(b, w)),
        removal.freed + space_at(b, w) == space_at(a, w),
        removal.all_cleared() ==> tree(b, w) == Map::<Seq<Seq<u8>>, Stat>::empty(),
{
    let name = w.last();
    let (ta, tb) = (tree(a, w), tree(b, w));
    let disk = held(ta, name);
    lemma_held_is_disk(ta, name);
    lemma_held_left(ta, tb, name, removal.cleared@);
    lemma_leaves(removal, disk);
    assert(left_by(removal, disk) == held(tb, name));
    lemma_disk_is_closed(tb, name);
    assert(held(tb, name).dom() =~= disk.dom().difference(removal.cleared@));
    if removal.all_cleared() {
        lemma_nothing_held(tb, name);
    }
}

proof fn lemma_leaves(removal: Removal, disk: Map<Seq<Seq<u8>>, (bool, u64)>)
    requires
        removal.wf(),
        is_disk(disk),
        accounts(removal, disk),
        forall|q: Seq<Seq<u8>>| #[trigger] disk.contains_key(q) ==> q.len() > 0 && q[0]
            == removal.root@,
    ensures
        is_disk(left_by(removal, disk)),
        removal.all_cleared() ==> forall|q: Seq<Seq<u8>>| !#[trigger] left_by(
            removal,
            disk,
        ).contains_key(q),
{
    assert(is_for_directory(removal, disk));
    law_an_interrupted_removal_leaves_no_orphans(removal, disk);
    if removal.all_cleared() {
        law_a_finished_removal_takes_the_whole_tree(removal, disk);
        assert forall|q: Seq<Seq<u8>>| !#[trigger] left_by(removal, disk).contains_key(q) by {
            assert(!without(disk, removal.root@).contains_key(q));
        }
    }
}

/// What unlinking an entry that is no directory leaves, and what that frees.
pub proof fn lemma_unlinks(w: Seq<Seq<u8>>, a: Disk, b: Disk)
    requires
        is_sound_at(a, w),
        top_of(tree(a, w)) matches Some(x) && !is_dir(x),
        tree(b, w) == tree(a, w).remove(Seq::empty()),
    ensures
        is_sound_at(b, w),
        is_left(tree(a, w), tree(b, w)),
        top_of(tree(a, w))->0.spec_disk() + space_at(b, w) == space_at(a, w),
        tree(b, w) == Map::<Seq<Seq<u8>>, Stat>::empty(),
{
    let name = w.last();
    let none = Seq::<Seq<u8>>::empty();
    let disk = held(tree(a, w), name);
    assert forall|r: Seq<Seq<u8>>| #[trigger] tree(a, w).contains_key(r) implies r == none by {
        lemma_only_the_top(tree(a, w), r);
    }
    assert(tree(b, w) =~= Map::<Seq<Seq<u8>>, Stat>::empty());
    assert(is_closed(tree(b, w))) by {
        reveal(is_closed);
    }
    assert(seq![name].drop_first() =~= none);
    assert(disk.contains_key(seq![name]));
    lemma_total_without(disk, seq![name]);
    assert(held(tree(b, w), name) =~= disk.remove(seq![name])) by {
        assert forall|q: Seq<Seq<u8>>| #[trigger] disk.contains_key(q) implies q == seq![name] by {
            assert(tree(a, w).contains_key(q.drop_first()));
            assert(q =~= seq![name] + q.drop_first());
            assert(q =~= seq![name]);
        }
    }
}

/// Where the top is no directory there is nothing else.
proof fn lemma_only_the_top(tree: Map<Seq<Seq<u8>>, Stat>, r: Seq<Seq<u8>>)
    requires
        is_closed(tree),
        top_of(tree) matches Some(x) && !is_dir(x),
        tree.contains_key(r),
    ensures
        r == Seq::<Seq<u8>>::empty(),
    decreases r.len(),
{
    reveal(is_closed);
    if r.len() > 0 {
        lemma_only_the_top(tree, r.drop_last());
    } else {
        assert(r =~= Seq::<Seq<u8>>::empty());
    }
}

/// Without a top there is nothing.
pub proof fn lemma_nothing_without_the_top(tree: Map<Seq<Seq<u8>>, Stat>)
    requires
        is_closed(tree),
        top_of(tree) is None,
    ensures
        tree == Map::<Seq<Seq<u8>>, Stat>::empty(),
{
    assert forall|r: Seq<Seq<u8>>| !#[trigger] tree.contains_key(r) by {
        if tree.contains_key(r) {
            lemma_has_a_top(tree, r);
        }
    }
    assert(tree =~= Map::<Seq<Seq<u8>>, Stat>::empty());
}

proof fn lemma_has_a_top(tree: Map<Seq<Seq<u8>>, Stat>, r: Seq<Seq<u8>>)
    requires
        is_closed(tree),
        tree.contains_key(r),
    ensures
        tree.contains_key(Seq::empty()),
    decreases r.len(),
{
    reveal(is_closed);
    if r.len() > 0 {
        lemma_has_a_top(tree, r.drop_last());
    } else {
        assert(r =~= Seq::<Seq<u8>>::empty());
    }
}

/// What a deletion has freed by the time this happened to it, and has yet to say.
spec fn in_hand(reply: DeleteReply) -> nat {
    match reply {
        DeleteReply::Unlinked { disk, .. } => disk as nat,
        DeleteReply::Announced { disk } => disk as nat,
        _ => 0,
    }
}

proof fn lemma_step(
    op: Op,
    strict: bool,
    s: Disk,
    a: (DeleteReply, Disk),
    b: (DeleteReply, Disk),
    freed: nat,
)
    requires
        stands(request_of(op, strict), a.0, top_of(tree(a.1, way_of(op)))),
        is_part_deleted(op, s, a.1, freed + in_hand(a.0)),
        passes(request_of(op, strict), way_of(op), a, b),
    ensures
        stands(request_of(op, strict), b.0, top_of(tree(b.1, way_of(op)))),
        is_part_deleted(op, s, b.1, freed + in_hand(b.0)),
{
    let req = request_of(op, strict);
    let w = way_of(op);
    law_a_resumed_deletion_ends_as_a_clean_one(
        req,
        a.0,
        top_of(tree(a.1, w)),
        b.0,
        top_of(tree(b.1, w)),
    );
    if delete_step(req, a.0) is Unlink {
        lemma_unlinks(w, a.1, b.1);
        lemma_elsewhere_same(s, a.1, b.1, set![w]);
        lemma_is_left(tree(s, w), tree(a.1, w), tree(b.1, w));
    }
}

proof fn lemma_stands(
    op: Op,
    strict: bool,
    s: Disk,
    t: Disk,
    freed: nat,
    chain: Seq<(DeleteReply, Disk)>,
    n: int,
)
    requires
        is_part_deleted(op, s, t, freed),
        strict ==> t == s,
        0 <= n < chain.len(),
        chain[0] == (DeleteReply::Start, t),
        forall|i: int|
            1 <= i < chain.len() ==> passes(
                request_of(op, strict),
                way_of(op),
                chain[i - 1],
                #[trigger] chain[i],
            ),
    ensures
        stands(request_of(op, strict), chain[n].0, top_of(tree(chain[n].1, way_of(op)))),
        is_part_deleted(op, s, chain[n].1, freed + in_hand(chain[n].0)),
    decreases n,
{
    let w = way_of(op);
    if n == 0 {
        assert(tree(t, w).contains_key(Seq::empty()) ==> tree(s, w).contains_key(Seq::empty()));
    } else {
        lemma_stands(op, strict, s, t, freed, chain, n - 1);
        lemma_step(op, strict, s, chain[n - 1], chain[n], freed);
    }
}

/// A deletion can be taken up again wherever it was left: it does not fail, it ends with what it is
/// about gone and the rest of the disk as it was, and altogether it frees no more than there was.
pub proof fn law_a_deletion_can_be_taken_up_again(
    op: Op,
    strict: bool,
    s: Disk,
    t: Disk,
    freed: nat,
    end: End,
    after: Disk,
) -> (sum: nat)
    requires
        is_part_deleted(op, s, t, freed),
        strict ==> t == s,
        is_carried_out(op, strict, t, end, after),
    ensures
        !(end is Failed),
        end matches End::Done(more) ==> is_deleted(op, s, after) && sum == freed + more,
        end matches End::Paused(more) ==> sum == freed + more,
        sum >= freed,
        is_part_deleted(op, s, after, sum),
{
    let req = request_of(op, strict);
    let w = way_of(op);
    let chain = choose|chain: Seq<(DeleteReply, Disk)>| #[trigger]
        goes(op, strict, t, chain, end, after);
    let last = chain.last();
    let n = chain.len() - 1;
    lemma_stands(op, strict, s, t, freed, chain, n);
    let ask = delete_step(req, last.0);
    law_a_resumed_deletion_ends_as_a_clean_one(
        req,
        last.0,
        top_of(tree(last.1, w)),
        DeleteReply::Start,
        None,
    );
    if ask is RemoveTree {
        assert(last.0 is Entry);
        if exists|removal: Removal| #[trigger]
            removes(removal, w, ask->RemoveTree_disk, last.1, after) && (end is Done ==> {
                &&& removal.all_cleared()
                &&& removal.freed == end->Done_0
            }) && (end is Paused ==> removal.freed == end->Paused_0) {
            let removal = choose|removal: Removal| #[trigger]
                removes(removal, w, ask->RemoveTree_disk, last.1, after) && (end is Done ==> {
                    &&& removal.all_cleared()
                    &&& removal.freed == end->Done_0
                }) && (end is Paused ==> removal.freed == end->Paused_0);
            lemma_removes(removal, w, ask->RemoveTree_disk, last.1, after);
            lemma_elsewhere_same(s, last.1, after, set![w]);
            lemma_is_left(tree(s, w), tree(last.1, w), tree(after, w));
            freed + removal.freed as nat
        } else {
            assert(end is Cut);
            freed
        }
    } else {
        if ask is Finished {
            lemma_nothing_without_the_top(tree(last.1, w));
        }
        freed + in_hand(last.0)
    }
}

} // verus!
