//! What a removal leaves behind, whether or not it was interrupted on the way.
//!
//! Everything here is said of a disk that nothing else writes to meanwhile, and of what listing its
//! directories gives.

use vstd::prelude::*;

use super::{delete_step, target, DeleteAsk, DeleteReply, DeleteRequest, Removal};
use crate::exec::{is_still, shows, still_matches, Opened};
use crate::plan::{EntryKind, Ident};
use crate::stat::Stat;

verus! {

/// What an undisturbed disk replies to a deletion, and what it then holds of the entry. Removing a
/// tree is no step of the deletion itself: what comes of it is what comes of the deletion.
pub open spec fn answers(
    ask: DeleteAsk,
    s: Option<Stat>,
    reply: DeleteReply,
    t: Option<Stat>,
) -> bool {
    match ask {
        DeleteAsk::OpenParent { .. } => t == s && {
            ||| reply == DeleteReply::Parent(Opened::Yes)
            ||| reply == DeleteReply::Parent(Opened::Gone) && s is None
        },
        DeleteAsk::Look { .. } => t == s && (reply matches DeleteReply::Entry(look) && shows(
            look,
            s,
        )),
        DeleteAsk::Unlink { disk, .. } => t is None && reply == (DeleteReply::Unlinked {
            disk,
            error: None,
        }),
        DeleteAsk::Announce { disk } => t == s && reply == (DeleteReply::Announced { disk }),
        _ => false,
    }
}

/// What a disk may hold of the entry where the run is cut off while it is about what was asked:
/// nothing of it has happened, or all of it, or part of a tree has been removed.
pub open spec fn cut_off(ask: DeleteAsk, s: Option<Stat>, t: Option<Stat>) -> bool {
    ||| t == s
    ||| exists|reply: DeleteReply| answers(ask, s, reply, t)
    ||| ask is RemoveTree && (t is None || is_still(s, t))
}

/// Whether the disk is as it should be when this has just happened to a deletion: what is there of
/// the entry is what was staged.
pub open spec fn stands(req: DeleteRequest, reply: DeleteReply, s: Option<Stat>) -> bool {
    let staged = s matches Some(x) ==> still_matches(req.ident, Ident::spec_of(x), req.strict);
    match reply {
        DeleteReply::Start => staged,
        DeleteReply::Parent(opened) => staged && match opened {
            Opened::Yes => true,
            Opened::Gone => s is None,
            Opened::Failed(_) => false,
        },
        DeleteReply::Entry(look) => staged && shows(look, s),
        DeleteReply::Unlinked { disk: _, error } => error is None && s is None,
        DeleteReply::Announced { .. } => s is None,
    }
}

/// How far a deletion has come.
pub open spec fn progress(reply: DeleteReply) -> nat {
    match reply {
        DeleteReply::Start => 0,
        DeleteReply::Parent(_) => 1,
        DeleteReply::Entry(_) => 2,
        DeleteReply::Unlinked { .. } => 3,
        DeleteReply::Announced { .. } => 4,
    }
}

/// A deletion that is taken up again ends as one that was never interrupted: it does not fail, it is
/// only ever done with the entry gone, and wherever it is cut off it can be taken up again. That
/// holds of an entry that is gone already, and of one that has the staged device, inode and kind.
pub proof fn law_a_resumed_deletion_ends_as_a_clean_one(
    req: DeleteRequest,
    reply: DeleteReply,
    s: Option<Stat>,
    next: DeleteReply,
    t: Option<Stat>,
)
    requires
        target(req.path@) is Ok,
        !req.dry_run,
        stands(req, reply, s),
    ensures
        !(delete_step(req, reply) is Failed),
        delete_step(req, reply) matches DeleteAsk::Finished(step) ==> step is Done && s is None,
        delete_step(req, reply) is RemoveTree ==> (s matches Some(x) && Ident::spec_of(x).kind
            == EntryKind::Dir),
        answers(delete_step(req, reply), s, next, t) ==> {
            &&& stands(req, next, t)
            &&& stands(DeleteRequest { strict: false, ..req }, DeleteReply::Start, t)
            &&& progress(next) > progress(reply)
        },
        cut_off(delete_step(req, reply), s, t) ==> stands(
            DeleteRequest { strict: false, ..req },
            DeleteReply::Start,
            t,
        ),
{
    let ask = delete_step(req, reply);
    if exists|r: DeleteReply| answers(ask, s, r, t) {
        let r = choose|r: DeleteReply| answers(ask, s, r, t);
        assert(stands(DeleteRequest { strict: false, ..req }, DeleteReply::Start, t));
    }
}

/// A disk: the ways to all that is on it, each with whether it leads to a directory and what it
/// takes up. Whatever lies somewhere lies in a directory.
pub open spec fn is_disk(disk: Map<Seq<Seq<u8>>, (bool, u64)>) -> bool {
    forall|p: Seq<Seq<u8>>| #[trigger]
        disk.contains_key(p) && p.len() > 1 ==> disk.contains_key(p.drop_last())
            && disk[p.drop_last()].0
}

/// Whether every directory that was opened was said to hold what it holds on `disk`.
pub open spec fn is_true_of(removal: Removal, disk: Map<Seq<Seq<u8>>, (bool, u64)>) -> bool {
    forall|p: Seq<Seq<u8>>, e: (Seq<u8>, bool, u64)|
        removal.told@.contains_key(p) ==> (#[trigger] removal.told_of(p).contains(e) <==> {
            &&& disk.contains_key(p.push(e.0))
            &&& disk[p.push(e.0)] == (e.1, e.2)
        })
}

/// Whether what the removal is to take away is a directory, if it is there.
pub open spec fn is_for_directory(removal: Removal, disk: Map<Seq<Seq<u8>>, (bool, u64)>) -> bool {
    disk.contains_key(seq![removal.root@]) ==> disk[seq![removal.root@]].0
}

/// Whether `p` leads to the directory to remove, or to something below it.
pub open spec fn is_below(p: Seq<Seq<u8>>, root: Seq<u8>) -> bool {
    p.len() > 0 && p[0] == root
}

/// What is left of a disk after as much of a removal as has happened.
pub open spec fn left_by(removal: Removal, disk: Map<Seq<Seq<u8>>, (bool, u64)>) -> Map<
    Seq<Seq<u8>>,
    (bool, u64),
> {
    disk.remove_keys(removal.cleared@)
}

/// What a disk holds without a directory and all that lies below it.
pub open spec fn without(disk: Map<Seq<Seq<u8>>, (bool, u64)>, root: Seq<u8>) -> Map<
    Seq<Seq<u8>>,
    (bool, u64),
> {
    disk.remove_keys(Set::new(|p: Seq<Seq<u8>>| is_below(p, root)))
}

proof fn lemma_reached(removal: Removal, disk: Map<Seq<Seq<u8>>, (bool, u64)>, p: Seq<Seq<u8>>)
    requires
        removal.wf(),
        removal.all_cleared(),
        is_disk(disk),
        is_true_of(removal, disk),
        is_for_directory(removal, disk),
        disk.contains_key(p),
        is_below(p, removal.root@),
    ensures
        removal.cleared@.contains(p),
        disk[p].0 ==> removal.told@.contains_key(p),
    decreases p.len(),
{
    let q = p.drop_last();
    if p.len() == 1 {
        assert(p =~= seq![removal.root@]);
    } else {
        lemma_reached(removal, disk, q);
        assert(q.push(p.last()) =~= p);
        assert(removal.told_of(q).contains((p.last(), disk[p].0, disk[p].1)));
    }
    assert(removal.found@.contains(p));
    if disk[p].0 {
        if removal.unlinked@.contains(p) {
            assert(q.push(p.last()) =~= p);
            assert(removal.is_plain(p));
            let size = choose|size: u64| #[trigger]
                removal.told_of(q).contains((p.last(), false, size));
            assert(removal.told@.contains_key(q));
            assert(false);
        }
        assert(removal.is_emptied(p));
    }
}

/// A removal that is done leaves nothing of its directory, however deep it lies, and takes nothing
/// else.
pub proof fn law_a_finished_removal_takes_the_whole_tree(
    removal: Removal,
    disk: Map<Seq<Seq<u8>>, (bool, u64)>,
)
    requires
        removal.wf(),
        removal.all_cleared(),
        is_disk(disk),
        is_true_of(removal, disk),
        is_for_directory(removal, disk),
    ensures
        left_by(removal, disk) == without(disk, removal.root@),
{
    assert forall|p: Seq<Seq<u8>>| disk.contains_key(p) && #[trigger] is_below(
        p,
        removal.root@,
    ) implies removal.cleared@.contains(p) by {
        lemma_reached(removal, disk, p);
    }
    assert(left_by(removal, disk) =~= without(disk, removal.root@));
}

/// Wherever a removal is interrupted, nothing is left without the directory it lies in, and
/// nothing outside the tree has been touched.
pub proof fn law_an_interrupted_removal_leaves_no_orphans(
    removal: Removal,
    disk: Map<Seq<Seq<u8>>, (bool, u64)>,
)
    requires
        removal.wf(),
        is_disk(disk),
        is_true_of(removal, disk),
        is_for_directory(removal, disk),
    ensures
        is_disk(left_by(removal, disk)),
        is_for_directory(removal, left_by(removal, disk)),
        without(left_by(removal, disk), removal.root@) == without(disk, removal.root@),
{
    let left = left_by(removal, disk);
    assert forall|p: Seq<Seq<u8>>| #[trigger] left.contains_key(p) && p.len() > 1 implies
        left.contains_key(p.drop_last()) && left[p.drop_last()].0 by {
        let q = p.drop_last();
        assert(disk.contains_key(p));
        assert(q.push(p.last()) =~= p);
        if removal.cleared@.contains(q) {
            if removal.unlinked@.contains(q) {
                let r = q.drop_last();
                assert(r.push(q.last()) =~= q);
                assert(removal.is_plain(q));
                let size = choose|size: u64| #[trigger]
                    removal.told_of(r).contains((q.last(), false, size));
                assert(removal.told@.contains_key(r));
                assert(false);
            }
            assert(removal.is_emptied(q));
            assert(removal.told_of(q).contains((p.last(), disk[p].0, disk[p].1)));
            assert(removal.cleared@.contains(q.push(p.last())));
        }
    }
    assert(without(left, removal.root@) =~= without(disk, removal.root@));
}

/// Once the directory itself is gone, so is all that it held, even where the removal was
/// interrupted before it could say so.
pub proof fn law_the_directory_goes_last(removal: Removal, disk: Map<Seq<Seq<u8>>, (bool, u64)>)
    requires
        removal.wf(),
        is_disk(disk),
        is_true_of(removal, disk),
        is_for_directory(removal, disk),
        !left_by(removal, disk).contains_key(seq![removal.root@]),
    ensures
        left_by(removal, disk) == without(disk, removal.root@),
{
    let left = left_by(removal, disk);
    law_an_interrupted_removal_leaves_no_orphans(removal, disk);
    assert forall|p: Seq<Seq<u8>>| left.contains_key(p) implies !#[trigger] is_below(
        p,
        removal.root@,
    ) by {
        if is_below(p, removal.root@) {
            lemma_root_of(left, p);
            assert(p.take(1) =~= seq![removal.root@]);
        }
    }
    assert(left =~= without(left, removal.root@));
}

proof fn lemma_root_of(disk: Map<Seq<Seq<u8>>, (bool, u64)>, p: Seq<Seq<u8>>)
    requires
        is_disk(disk),
        disk.contains_key(p),
        p.len() > 0,
    ensures
        disk.contains_key(p.take(1)),
    decreases p.len(),
{
    if p.len() == 1 {
        assert(p.take(1) =~= p);
    } else {
        lemma_root_of(disk, p.drop_last());
        assert(p.drop_last().take(1) =~= p.take(1));
    }
}

/// Resuming leaves what a clean run leaves: a removal that was interrupted anywhere, and begun
/// again on what was left, ends with the disk that one which was never interrupted ends with.
pub proof fn law_a_resumed_removal_leaves_what_a_clean_one_leaves(
    disk: Map<Seq<Seq<u8>>, (bool, u64)>,
    clean: Removal,
    interrupted: Removal,
    resumed: Removal,
)
    requires
        clean.root@ == interrupted.root@,
        clean.root@ == resumed.root@,
        is_disk(disk),
        is_for_directory(clean, disk),
        clean.wf(),
        clean.all_cleared(),
        is_true_of(clean, disk),
        interrupted.wf(),
        is_true_of(interrupted, disk),
        resumed.wf(),
        resumed.all_cleared(),
        is_true_of(resumed, left_by(interrupted, disk)),
    ensures
        left_by(resumed, left_by(interrupted, disk)) == left_by(clean, disk),
{
    law_an_interrupted_removal_leaves_no_orphans(interrupted, disk);
    law_a_finished_removal_takes_the_whole_tree(resumed, left_by(interrupted, disk));
    law_a_finished_removal_takes_the_whole_tree(clean, disk);
}

/// What all that is on a disk takes up together.
pub open spec fn total(disk: Map<Seq<Seq<u8>>, (bool, u64)>) -> nat
    decreases disk.dom().len(),
{
    if disk.dom().finite() && disk.dom().len() > 0 {
        let p = disk.dom().choose();
        disk[p].1 as nat + total(disk.remove(p))
    } else {
        0
    }
}

pub proof fn lemma_total_without(disk: Map<Seq<Seq<u8>>, (bool, u64)>, p: Seq<Seq<u8>>)
    requires
        disk.dom().finite(),
        disk.contains_key(p),
    ensures
        total(disk) == disk[p].1 + total(disk.remove(p)),
    decreases disk.dom().len(),
{
    let c = disk.dom().choose();
    assert(disk.dom().contains(p));
    if c != p {
        lemma_total_without(disk.remove(c), p);
        lemma_total_without(disk.remove(p), c);
        assert(disk.remove(c).remove(p) =~= disk.remove(p).remove(c));
    }
}

/// Whether what a removal says it has freed is what is gone from a disk.
pub open spec fn accounts(removal: Removal, disk: Map<Seq<Seq<u8>>, (bool, u64)>) -> bool {
    &&& disk.dom().finite()
    &&& is_true_of(removal, disk)
    &&& disk.contains_key(seq![removal.root@]) ==> disk[seq![removal.root@]] == (
        true,
        removal.size@,
    )
    &&& removal.freed + total(left_by(removal, disk)) == total(disk)
}

/// A removal that has just begun has freed nothing, and taken nothing.
pub proof fn law_a_removal_starts_from_the_whole_disk(
    removal: Removal,
    disk: Map<Seq<Seq<u8>>, (bool, u64)>,
)
    requires
        disk.dom().finite(),
        disk.contains_key(seq![removal.root@]) ==> disk[seq![removal.root@]] == (
            true,
            removal.size@,
        ),
        removal.freed == 0,
        removal.cleared@ == Set::<Seq<Seq<u8>>>::empty(),
        removal.told@ == Map::<Seq<Seq<u8>>, Set<(Seq<u8>, bool, u64)>>::empty(),
    ensures
        accounts(removal, disk),
{
    assert(left_by(removal, disk) =~= disk);
}

/// Opening a directory that is there frees nothing.
pub proof fn law_opening_a_directory_frees_nothing(
    before: Removal,
    after: Removal,
    disk: Map<Seq<Seq<u8>>, (bool, u64)>,
)
    requires
        before.waiting is Open,
        accounts(before, disk),
        left_by(before, disk).contains_key(before.in_hand()->0),
        after.root == before.root,
        after.size == before.size,
        after.freed == before.freed,
        after.cleared@ == before.cleared@.remove(before.in_hand()->0),
        is_true_of(after, disk),
    ensures
        accounts(after, disk),
{
    assert(left_by(after, disk) =~= left_by(before, disk));
}

/// What goes is freed, each entry once and for what it takes up.
pub proof fn law_what_is_freed_was_on_the_disk(
    before: Removal,
    after: Removal,
    disk: Map<Seq<Seq<u8>>, (bool, u64)>,
)
    requires
        before.wf(),
        before.waiting is Unlink || before.waiting is RemoveDir,
        accounts(before, disk),
        left_by(before, disk).contains_key(before.in_hand()->0),
        after.root == before.root,
        after.size == before.size,
        after.told == before.told,
        after.freed == before.freed + before.at_stake(),
        after.cleared@ == before.cleared@.insert(before.in_hand()->0),
    ensures
        accounts(after, disk),
{
    let p = before.in_hand()->0;
    let left = left_by(before, disk);
    let n = before.stack@.len() as int;
    let here = super::trail(before.stack@, n);
    assert(p.drop_last() =~= here);
    match before.waiting {
        super::Waiting::Unlink { name, disk: size } => {
            assert(before.told_of(here).contains((name@, false, size)));
            assert(before.told@.contains_key(here));
            assert(here.push(name@) == p);
        },
        super::Waiting::RemoveDir { name, disk: size } => {
            if n == 0 {
                assert(p =~= seq![before.root@]);
            } else {
                assert(before.told_of(here).contains((name@, true, size)));
                assert(before.told@.contains_key(here));
                assert(here.push(name@) == p);
            }
        },
        _ => {},
    }
    assert(disk[p].1 == before.at_stake());
    assert(left.dom() =~= disk.dom().difference(before.cleared@));
    lemma_total_without(left, p);
    assert(left_by(after, disk) =~= left.remove(p));
    assert forall|q: Seq<Seq<u8>>, e: (Seq<u8>, bool, u64)|
        after.told@.contains_key(q) implies (#[trigger] after.told_of(q).contains(e) <==> {
        &&& disk.contains_key(q.push(e.0))
        &&& disk[q.push(e.0)] == (e.1, e.2)
    }) by {
        assert(before.told_of(q).contains(e) == after.told_of(q).contains(e));
    }
}

/// A removal that was interrupted and the one that took it up free together what one that was never
/// interrupted frees, and each of them no more.
pub proof fn law_a_resumed_removal_frees_what_a_clean_one_frees(
    disk: Map<Seq<Seq<u8>>, (bool, u64)>,
    clean: Removal,
    interrupted: Removal,
    resumed: Removal,
)
    requires
        clean.root@ == interrupted.root@,
        clean.root@ == resumed.root@,
        is_disk(disk),
        is_for_directory(clean, disk),
        clean.wf(),
        clean.all_cleared(),
        accounts(clean, disk),
        interrupted.wf(),
        accounts(interrupted, disk),
        resumed.wf(),
        resumed.all_cleared(),
        accounts(resumed, left_by(interrupted, disk)),
    ensures
        interrupted.freed + resumed.freed == clean.freed,
{
    law_a_resumed_removal_leaves_what_a_clean_one_leaves(disk, clean, interrupted, resumed);
}

} // verus!
