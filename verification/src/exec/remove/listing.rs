//! What comes out of a directory, and out of an entry, told off what was found there.

use vstd::prelude::*;

use super::{
    child_of, children_in, delete_step, first_unknown, frame_fault, is_dot_name, is_unknown, target,
    ways_in, DeleteAsk, DeleteReply, DeleteRequest, FrameReply, Listed, Removal, RemoveAct,
};
use crate::exec::{Looked, Opened, Step};
use crate::path::{file_name_of, parent_of};
use crate::plan::{law_an_entry_is_known_by_what_it_is, Ident};
use crate::stat::Stat;

verus! {

/// Whether an entry has to come out: it is there, and is neither the directory itself nor the one
/// around it.
pub open spec fn is_held(entry: Listed) -> bool {
    &&& entry.look is Found
    &&& !(entry.name@.len() == 1 && entry.name@[0] == 46)
    &&& !(entry.name@.len() == 2 && entry.name@[0] == 46 && entry.name@[1] == 46)
}

/// What is noted of an entry that has to come out: its name, whether it is a directory, and what it
/// takes up, as far as that can be counted.
pub open spec fn noted(entry: Listed) -> (Seq<u8>, bool, u64) {
    let stat = entry.look->Found_0;
    (
        entry.name@,
        stat.mode & 0xf000 == 0x4000,
        if stat.blocks * 512 <= u64::MAX {
            (stat.blocks * 512) as u64
        } else {
            u64::MAX
        },
    )
}

proof fn lemma_dots(name: Seq<u8>)
    ensures
        is_dot_name(name) == ((name.len() == 1 && name[0] == 46) || (name.len() == 2 && name[0] == 46
            && name[1] == 46)),
{
    if name.len() == 1 && name[0] == 46 {
        assert(name =~= seq![46u8]);
    }
    if name.len() == 2 && name[0] == 46 && name[1] == 46 {
        assert(name =~= seq![46u8, 46u8]);
    }
}

proof fn lemma_noted(entry: Listed)
    ensures
        child_of(entry) == (if is_held(entry) {
            Some(noted(entry))
        } else {
            None
        }),
{
    lemma_dots(entry.name@);
    if entry.look is Found {
        law_an_entry_is_known_by_what_it_is(entry.look->Found_0);
        crate::stat::law_what_a_stat_says(entry.look->Found_0);
    }
}

/// Everything that a directory holds comes out of it, whatever it is called: each entry once and as
/// what it was found to be, and nothing else.
pub proof fn law_everything_in_a_directory_comes_out(entries: Seq<Listed>)
    ensures
        children_in(entries) == entries.filter(|e: Listed| is_held(e)).map_values(
            |e: Listed| noted(e),
        ),
        forall|i: int|
            0 <= i < entries.len() && is_held(#[trigger] entries[i]) ==> children_in(
                entries,
            ).contains(noted(entries[i])),
    decreases entries.len(),
{
    reveal(Seq::filter);
    let held = |e: Listed| is_held(e);
    if entries.len() > 0 {
        let rest = entries.drop_last();
        law_everything_in_a_directory_comes_out(rest);
        lemma_noted(entries.last());
        assert(entries.filter(held) == (if is_held(entries.last()) {
            rest.filter(held).push(entries.last())
        } else {
            rest.filter(held)
        }));
    }
    assert(children_in(entries) =~= entries.filter(held).map_values(|e: Listed| noted(e)));
    assert forall|i: int| 0 <= i < entries.len() && is_held(#[trigger] entries[i]) implies children_in(
        entries,
    ).contains(noted(entries[i])) by {
        broadcast use vstd::seq_lib::group_filter_ensures;

        assert(held(entries[i]));
        assert(entries.filter(held).contains(entries[i]));
        let k = choose|k: int|
            0 <= k < entries.filter(held).len() && entries.filter(held)[k] == entries[i];
        assert(children_in(entries)[k] == noted(entries[i]));
    }
}

/// Nothing is taken out of a directory unless all that it holds is known: it could be opened, written
/// to and read to its end, and a stat of each of its entries failed at most for want of the entry.
pub proof fn law_a_directory_is_known_before_it_is_emptied(name: Seq<u8>, reply: FrameReply)
    ensures
        frame_fault(name, reply) is None <==> {
            &&& reply matches FrameReply::Entries { entries, broke }
            &&& broke is None
            &&& forall|i: int|
                0 <= i < entries@.len() && (#[trigger] entries@[i]).look is Failed
                    ==> entries@[i].name@ == seq![46u8] || entries@[i].name@ == seq![46u8, 46u8]
        },
{
    if let FrameReply::Entries { entries, broke } = reply {
        lemma_first_unknown(entries@, 0);
        let k = first_unknown(entries@, 0);
        if k < entries@.len() {
            assert(is_unknown(entries@[k]));
            assert(entries@[k].look is Failed);
        } else {
            assert forall|i: int|
                0 <= i < entries@.len() && (#[trigger] entries@[i]).look is Failed implies
                entries@[i].name@ == seq![46u8] || entries@[i].name@ == seq![46u8, 46u8] by {
                assert(!is_unknown(entries@[i]));
            }
        }
    }
}

proof fn lemma_first_unknown(entries: Seq<Listed>, i: int)
    requires
        0 <= i <= entries.len(),
    ensures
        i <= first_unknown(entries, i) <= entries.len(),
        first_unknown(entries, i) < entries.len() ==> is_unknown(
            entries[first_unknown(entries, i)],
        ),
        forall|k: int| i <= k < first_unknown(entries, i) ==> !is_unknown(#[trigger] entries[k]),
    decreases entries.len() - i,
{
    if i < entries.len() && !is_unknown(entries[i]) {
        lemma_first_unknown(entries, i + 1);
    }
}

/// What is deleted is the last component of a path, out of the directory that the rest of it names,
/// and any path will do that has both and no zero byte in its name.
pub proof fn law_what_a_path_names(path: Seq<u8>)
    ensures
        target(path) is Ok <==> {
            &&& parent_of(path) is Some
            &&& file_name_of(path) matches Some(name)
            &&& forall|i: int| 0 <= i < name.len() ==> name[i] != 0
        },
        target(path) is Ok ==> Some(target(path)->Ok_0.0) == parent_of(path) && Some(
            target(path)->Ok_0.1,
        ) == file_name_of(path),
{
    if file_name_of(path) is Some {
        let name = file_name_of(path)->0;
        if exists|i: int| 0 <= i < name.len() && name[i] == 0 {
            let i = choose|i: int| 0 <= i < name.len() && name[i] == 0;
            assert(name.contains(name[i]));
        }
    }
}

/// Whether an entry is the one that was staged: the same object, of the same kind, and unless its
/// deletion was begun before, as long as it was and not written to since.
pub open spec fn is_the_staged(req: DeleteRequest, stat: Stat) -> bool {
    let now = Ident::spec_of(stat);
    &&& stat.dev == req.ident.dev
    &&& stat.ino == req.ident.ino
    &&& now.kind == req.ident.kind
    &&& req.strict ==> now.size == req.ident.size && stat.mtime == req.ident.mtime
}

/// What becomes of an entry that was looked at: what is gone needs nothing more, what is not what was
/// staged is left alone, and what is staged goes, a directory with all it holds, unless it is only
/// to be checked.
pub proof fn law_what_becomes_of_an_entry(req: DeleteRequest, looked: Looked)
    requires
        target(req.path@) is Ok,
    ensures
        ({
            let ask = delete_step(req, DeleteReply::Entry(looked));
            let name = file_name_of(req.path@)->0;
            match looked {
                Looked::Gone => ask == DeleteAsk::Finished(Step::Done(0)),
                Looked::Failed(_) => ask is Failed,
                Looked::Found(stat) => {
                    let disk = if stat.blocks * 512 <= u64::MAX {
                        (stat.blocks * 512) as u64
                    } else {
                        u64::MAX
                    };
                    if !is_the_staged(req, stat) {
                        ask is Failed
                    } else if req.dry_run {
                        ask == DeleteAsk::Finished(Step::Done(req.est_bytes))
                    } else if stat.mode & 0xf000 == 0x4000 {
                        ask == (DeleteAsk::RemoveTree { name, disk })
                    } else {
                        ask == (DeleteAsk::Unlink { name, disk })
                    }
                },
            }
        }),
{
    law_what_a_path_names(req.path@);
    if let Looked::Found(stat) = looked {
        law_an_entry_is_known_by_what_it_is(stat);
        crate::stat::law_what_a_stat_says(stat);
    }
}

/// A deletion that nothing goes wrong with opens the directory around its entry, looks at the entry,
/// unlinks it and is done, having reclaimed what the entry took up.
pub proof fn law_a_deletion_takes_every_step(req: DeleteRequest, disk: u64)
    requires
        target(req.path@) is Ok,
    ensures
        delete_step(req, DeleteReply::Start) == (DeleteAsk::OpenParent {
            parent: parent_of(req.path@)->0,
        }),
        delete_step(req, DeleteReply::Parent(Opened::Yes)) == (DeleteAsk::Look {
            name: file_name_of(req.path@)->0,
        }),
        delete_step(req, DeleteReply::Parent(Opened::Gone)) == DeleteAsk::Finished(Step::Done(0)),
        delete_step(req, DeleteReply::Unlinked { disk, error: None }) == (DeleteAsk::Announce {
            disk,
        }),
        delete_step(req, DeleteReply::Announced { disk }) == DeleteAsk::Finished(Step::Done(disk)),
{
    law_what_a_path_names(req.path@);
}

/// What went wrong is told, and ends the deletion.
pub proof fn law_what_goes_wrong_with_a_deletion_is_told(req: DeleteRequest, e: String, disk: u64)
    ensures
        delete_step(req, DeleteReply::Parent(Opened::Failed(e))) is Failed,
        delete_step(req, DeleteReply::Unlinked { disk, error: Some(e) }) is Failed,
        target(req.path@) is Err ==> delete_step(req, DeleteReply::Start) is Failed,
{
}

/// A removal is over once no directory is left open, and then all that was found is gone, and what is
/// said to be freed is what was. Until then it goes on, unless it is asked to stop.
pub proof fn law_when_a_removal_is_over(removal: Removal, act: RemoveAct)
    requires
        removal.carries_on(act),
    ensures
        act is Finished == (removal.stack@.len() == 0),
        act matches RemoveAct::Finished(step) ==> {
            &&& step == Step::Done(removal.freed)
            &&& forall|p: Seq<Seq<u8>>| #[trigger]
                removal.found@.contains(p) ==> removal.cleared@.contains(p)
            &&& removal.waiting is Over
        },
        !(act is Finished) ==> act is CheckPause && removal.waiting is Go,
{
}

/// What is found in a directory is found under its name there, and nothing else is.
pub proof fn law_what_is_found_in_a_directory(
    dir: Seq<Seq<u8>>,
    children: Seq<(Seq<u8>, bool, u64)>,
    name: Seq<u8>,
)
    ensures
        ways_in(dir, children).contains(dir.push(name)) == exists|j: int|
            0 <= j < children.len() && (#[trigger] children[j]).0 == name,
        forall|p: Seq<Seq<u8>>| #[trigger]
            ways_in(dir, children).contains(p) ==> p.len() == dir.len() + 1 && p.drop_last() == dir,
{
    let way = dir.push(name);
    if ways_in(dir, children).contains(way) {
        let j = choose|j: int|
            0 <= j < children.len() && way == dir.push((#[trigger] children[j]).0);
        assert(way.last() == children[j].0);
    }
    if exists|j: int| 0 <= j < children.len() && (#[trigger] children[j]).0 == name {
        let j = choose|j: int| 0 <= j < children.len() && (#[trigger] children[j]).0 == name;
        assert(way == dir.push(children[j].0));
    }
    assert forall|p: Seq<Seq<u8>>| #[trigger] ways_in(dir, children).contains(p) implies p.len()
        == dir.len() + 1 && p.drop_last() == dir by {
        let j = choose|j: int|
            0 <= j < children.len() && p == dir.push((#[trigger] children[j]).0);
        assert(dir.push(children[j].0).drop_last() =~= dir);
    }
}

} // verus!
