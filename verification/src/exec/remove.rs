//! Deleting: one entry, or a whole tree.

use vstd::prelude::*;

use crate::exec::names::{about, name_string, name_text};
use crate::exec::{
    difference, difference_text, has_nul, holds_nul, still_matches, Looked, Opened,
    Removed, Step,
};
use crate::path::{file_name, file_name_of, parent, parent_of};
use crate::plan::{EntryKind, Ident};
use crate::text::{cat2, cat3, copy_bytes, show, shown};

pub mod listing;
pub mod resume;
pub mod whole;

verus! {

/// Deepest tree that is descended into while deleting. Each level costs a descriptor; a tree
/// deeper than this is more likely to be a bug than a directory.
pub const MAX_DEPTH: usize = 512;

/// A deletion to carry out.
#[derive(Clone, Debug)]
pub struct DeleteRequest {
    pub path: Vec<u8>,
    pub ident: Ident,
    pub est_bytes: u64,
    /// False for an operation being resumed, whose own progress explains any drift.
    pub strict: bool,
    /// Check everything, change nothing.
    pub dry_run: bool,
}

/// What has just happened to a deletion.
#[derive(Debug)]
pub enum DeleteReply {
    Start,
    /// The directory the entry is in was to be opened.
    Parent(Opened),
    /// The entry was to be stat'd, relative to that directory, without following a link.
    Entry(Looked),
    /// The entry, which took up `disk` bytes, was to be unlinked.
    Unlinked { disk: u64, error: Option<String> },
    /// Nothing interrupted the run after the entry went.
    Announced { disk: u64 },
}

/// What a deletion asks for next.
#[derive(Debug)]
pub enum DeleteAct {
    OpenParent { parent: Vec<u8> },
    Look { name: Vec<u8> },
    Unlink { name: Vec<u8>, disk: u64 },
    /// Remove the directory and everything under it; what comes of that is what comes of the
    /// operation.
    RemoveTree { name: Vec<u8>, disk: u64 },
    /// The point at which part of the work is done and no completion is recorded.
    Announce { disk: u64 },
    Finished(Step),
    Failed(String),
}

/// What a deletion asks for, in terms of paths and text.
pub enum DeleteAsk {
    OpenParent { parent: Seq<u8> },
    Look { name: Seq<u8> },
    Unlink { name: Seq<u8>, disk: u64 },
    RemoveTree { name: Seq<u8>, disk: u64 },
    Announce { disk: u64 },
    Finished(Step),
    Failed(Seq<char>),
}

impl View for DeleteAct {
    type V = DeleteAsk;

    open spec fn view(&self) -> DeleteAsk {
        match self {
            DeleteAct::OpenParent { parent } => DeleteAsk::OpenParent { parent: parent@ },
            DeleteAct::Look { name } => DeleteAsk::Look { name: name@ },
            DeleteAct::Unlink { name, disk } => DeleteAsk::Unlink { name: name@, disk: *disk },
            DeleteAct::RemoveTree { name, disk } => DeleteAsk::RemoveTree {
                name: name@,
                disk: *disk,
            },
            DeleteAct::Announce { disk } => DeleteAsk::Announce { disk: *disk },
            DeleteAct::Finished(step) => DeleteAsk::Finished(*step),
            DeleteAct::Failed(e) => DeleteAsk::Failed(e@),
        }
    }
}

/// The directory and the name to act on, or why there are none.
pub open spec fn target(path: Seq<u8>) -> Result<(Seq<u8>, Seq<u8>), Seq<char>> {
    match (parent_of(path), file_name_of(path)) {
        (Some(parent), Some(name)) => if holds_nul(name) {
            Err("entry name contains a NUL"@)
        } else {
            Ok((parent, name))
        },
        _ => Err(shown(path) + " has no parent directory"@),
    }
}

/// What follows once the entry to delete has been looked at.
pub open spec fn after_look(req: DeleteRequest, name: Seq<u8>, looked: Looked) -> DeleteAsk {
    match looked {
        // Already gone. A resumed run reaches this constantly, and it is what was wanted.
        Looked::Gone => DeleteAsk::Finished(Step::Done(0)),
        Looked::Failed(e) => DeleteAsk::Failed(shown(req.path@) + ": "@ + e@),
        Looked::Found(stat) => {
            let now = Ident::spec_of(stat);
            if !still_matches(req.ident, now, req.strict) {
                DeleteAsk::Failed(
                    shown(req.path@) + " is not what was staged: "@ + difference_text(
                        req.ident,
                        now,
                    ),
                )
            } else if req.dry_run {
                DeleteAsk::Finished(Step::Done(req.est_bytes))
            } else if now.kind == EntryKind::Dir {
                DeleteAsk::RemoveTree { name, disk: stat.spec_disk() }
            } else {
                DeleteAsk::Unlink { name, disk: stat.spec_disk() }
            }
        },
    }
}

/// What a deletion does next.
pub open spec fn delete_step(req: DeleteRequest, reply: DeleteReply) -> DeleteAsk {
    match target(req.path@) {
        Err(e) => DeleteAsk::Failed(e),
        Ok((parent, name)) => match reply {
            DeleteReply::Start => DeleteAsk::OpenParent { parent },
            DeleteReply::Parent(Opened::Yes) => DeleteAsk::Look { name },
            DeleteReply::Parent(Opened::Gone) => DeleteAsk::Finished(Step::Done(0)),
            DeleteReply::Parent(Opened::Failed(e)) => DeleteAsk::Failed(
                "opening "@ + shown(parent) + ": "@ + e@,
            ),
            DeleteReply::Entry(looked) => after_look(req, name, looked),
            DeleteReply::Unlinked { disk, error: None } => DeleteAsk::Announce { disk },
            DeleteReply::Unlinked { disk, error: Some(e) } => DeleteAsk::Failed(
                shown(req.path@) + ": "@ + e@,
            ),
            DeleteReply::Announced { disk } => DeleteAsk::Finished(Step::Done(disk)),
        },
    }
}

/// Carry out a deletion: given what has just happened, what to do next.
///
/// Everything happens relative to the parent directory, once it is open. Resolving the parent
/// follows symlinks in intermediate components, which it must, but once it is open nothing can
/// substitute a different directory underneath, and the identity check settles what the final
/// component is.
pub fn run_op(req: &DeleteRequest, reply: &DeleteReply) -> (r: DeleteAct)
    ensures
        r@ == delete_step(*req, *reply),
{
    let path = req.path.as_slice();
    let (parent, name) = match (parent(path), file_name(path)) {
        (Some(parent), Some(name)) => (parent, name),
        _ => {
            let p = show(path);
            return DeleteAct::Failed(cat2(p.as_str(), " has no parent directory"));
        },
    };
    if has_nul(name.as_slice()) {
        return DeleteAct::Failed(String::from_str("entry name contains a NUL"));
    }
    match reply {
        DeleteReply::Start => DeleteAct::OpenParent { parent },
        DeleteReply::Parent(Opened::Yes) => DeleteAct::Look { name },
        DeleteReply::Parent(Opened::Gone) => DeleteAct::Finished(Step::Done(0)),
        DeleteReply::Parent(Opened::Failed(e)) => {
            let p = show(parent.as_slice());
            let mut text = cat3("opening ", p.as_str(), ": ");
            text.append(e.as_str());
            DeleteAct::Failed(text)
        },
        DeleteReply::Entry(looked) => match looked {
            Looked::Gone => DeleteAct::Finished(Step::Done(0)),
            Looked::Failed(e) => {
                let p = show(path);
                DeleteAct::Failed(cat3(p.as_str(), ": ", e.as_str()))
            },
            Looked::Found(stat) => {
                let now = Ident::of(stat);
                if !crate::exec::matches(&req.ident, &now, req.strict) {
                    let p = show(path);
                    let d = difference(&req.ident, &now);
                    return DeleteAct::Failed(
                        cat3(p.as_str(), " is not what was staged: ", d.as_str()),
                    );
                }
                if req.dry_run {
                    return DeleteAct::Finished(Step::Done(req.est_bytes));
                }
                if now.kind == EntryKind::Dir {
                    DeleteAct::RemoveTree { name, disk: stat.disk() }
                } else {
                    DeleteAct::Unlink { name, disk: stat.disk() }
                }
            },
        },
        DeleteReply::Unlinked { disk, error } => match error {
            None => DeleteAct::Announce { disk: *disk },
            Some(e) => {
                let p = show(path);
                DeleteAct::Failed(cat3(p.as_str(), ": ", e.as_str()))
            },
        },
        DeleteReply::Announced { disk } => DeleteAct::Finished(Step::Done(*disk)),
    }
}

/// Nothing is removed that is not what was reviewed: whatever is unlinked, or emptied, has just
/// been found to match its staged identity, and never in a dry run.
pub proof fn law_only_what_was_staged_is_deleted(req: DeleteRequest, reply: DeleteReply)
    ensures
        ({
            let ask = delete_step(req, reply);
            ask is Unlink || ask is RemoveTree ==> {
                &&& !req.dry_run
                &&& reply matches DeleteReply::Entry(Looked::Found(stat))
                &&& still_matches(req.ident, Ident::spec_of(stat), req.strict)
            }
        }),
{
}

/// An entry of a directory that is being emptied.
#[derive(Clone, Debug)]
pub struct Child {
    pub name: Vec<u8>,
    pub is_dir: bool,
    pub disk: u64,
}

/// An entry as it was listed, and what a stat said of it.
#[derive(Debug)]
pub struct Listed {
    pub name: Vec<u8>,
    pub look: Looked,
}

/// What came of opening a directory to empty it.
#[derive(Debug)]
pub enum FrameReply {
    OpenFailed(String),
    /// It cannot be written to, so nothing could be unlinked from it.
    NotWritable,
    ReadFailed(String),
    /// Its entries, up to where reading them broke off, if it did.
    Entries { entries: Vec<Listed>, broke: Option<String> },
}

pub open spec fn is_dot_name(name: Seq<u8>) -> bool {
    name == seq![46u8] || name == seq![46u8, 46u8]
}

pub open spec fn child_of(entry: Listed) -> Option<(Seq<u8>, bool, u64)> {
    match entry.look {
        Looked::Found(stat) => if is_dot_name(entry.name@) {
            None
        } else {
            Some(
                (
                    entry.name@,
                    Ident::spec_of(stat).kind == EntryKind::Dir,
                    stat.spec_disk(),
                ),
            )
        },
        _ => None,
    }
}

pub open spec fn child_view(c: Child) -> (Seq<u8>, bool, u64) {
    (c.name@, c.is_dir, c.disk)
}

/// What has to come out of a directory: every entry that is there, but for `.` and `..`.
pub open spec fn children_in(entries: Seq<Listed>) -> Seq<(Seq<u8>, bool, u64)>
    decreases entries.len(),
{
    if entries.len() == 0 {
        Seq::empty()
    } else {
        match child_of(entries.last()) {
            Some(c) => children_in(entries.drop_last()).push(c),
            None => children_in(entries.drop_last()),
        }
    }
}

/// Whether an entry could not be looked at.
pub open spec fn is_unknown(entry: Listed) -> bool {
    !is_dot_name(entry.name@) && entry.look is Failed
}

/// The first entry, from `i` on, that could not be looked at.
pub open spec fn first_unknown(entries: Seq<Listed>, i: int) -> int
    decreases entries.len() - i,
{
    if i < 0 || i >= entries.len() || is_unknown(entries[i]) {
        i
    } else {
        first_unknown(entries, i + 1)
    }
}

/// Why a directory cannot be emptied, if it cannot.
pub open spec fn frame_fault(name: Seq<u8>, reply: FrameReply) -> Option<Seq<char>> {
    match reply {
        FrameReply::OpenFailed(e) => Some("opening "@ + name_text(name) + ": "@ + e@),
        FrameReply::NotWritable => Some("no write permission on "@ + name_text(name)),
        FrameReply::ReadFailed(e) => Some("reading "@ + name_text(name) + ": "@ + e@),
        FrameReply::Entries { entries, broke } => {
            let k = first_unknown(entries@, 0);
            if k < entries@.len() {
                Some(
                    "stat "@ + name_text(entries@[k].name@) + ": "@
                        + entries@[k].look->Failed_0@,
                )
            } else {
                match broke {
                    Some(e) => Some("reading "@ + name_text(name) + ": "@ + e@),
                    None => None,
                }
            }
        },
    }
}

pub(crate) fn is_dot(name: &[u8]) -> (r: bool)
    ensures
        r == is_dot_name(name@),
{
    let r = (name.len() == 1 && name[0] == 46) || (name.len() == 2 && name[0] == 46 && name[1]
        == 46);
    proof {
        if name@.len() == 1 && name@[0] == 46 {
            assert(name@ =~= seq![46u8]);
        }
        if name@.len() == 2 && name@[0] == 46 && name@[1] == 46 {
            assert(name@ =~= seq![46u8, 46u8]);
        }
    }
    r
}

/// Make out what has to come out of a directory.
///
/// The write check is what stops a removal from destroying half a tree and then failing: entries
/// are unlinked from their parent, so a directory that cannot be written to will refuse the
/// operation anyway, and it is better to find that out before its children are gone than after.
pub fn read_frame(name: &[u8], reply: &FrameReply) -> (r: Result<Vec<Child>, String>)
    ensures
        match r {
            Ok(children) => {
                &&& frame_fault(name@, *reply) is None
                &&& reply matches FrameReply::Entries { entries, .. }
                &&& children@.map_values(|c: Child| child_view(c)) == children_in(entries@)
            },
            Err(e) => frame_fault(name@, *reply) == Some(e@),
        },
{
    match reply {
        FrameReply::OpenFailed(e) => Err(about("opening ", name, e.as_str())),
        FrameReply::NotWritable => {
            let q = name_string(name);
            Err(cat2("no write permission on ", q.as_str()))
        },
        FrameReply::ReadFailed(e) => Err(about("reading ", name, e.as_str())),
        FrameReply::Entries { entries, broke } => {
            let mut children: Vec<Child> = Vec::new();
            let mut i: usize = 0;
            proof {
                assert(entries@.take(0) =~= Seq::<Listed>::empty());
                assert(children@.map_values(|c: Child| child_view(c)) =~= children_in(
                    entries@.take(0),
                ));
            }
            while i < entries.len()
                invariant
                    i <= entries@.len(),
                    reply matches FrameReply::Entries { entries: e2, .. } && e2 == *entries,
                    first_unknown(entries@, 0) == first_unknown(entries@, i as int),
                    children@.map_values(|c: Child| child_view(c)) == children_in(
                        entries@.take(i as int),
                    ),
                decreases entries.len() - i,
            {
                proof {
                    assert(entries@.take(i + 1).drop_last() =~= entries@.take(i as int));
                }
                let entry = &entries[i];
                if !is_dot(entry.name.as_slice()) {
                    match &entry.look {
                        Looked::Found(stat) => {
                            let ghost before = children@;
                            let is_dir = Ident::of(stat).kind == EntryKind::Dir;
                            let child = Child {
                                name: copy_bytes(entry.name.as_slice()),
                                is_dir,
                                disk: stat.disk(),
                            };
                            children.push(child);
                            proof {
                                assert(children@.map_values(|c: Child| child_view(c))
                                    =~= before.map_values(|c: Child| child_view(c)).push(
                                    child_view(child),
                                ));
                            }
                        },
                        Looked::Gone => {},
                        Looked::Failed(e) => {
                            return Err(about("stat ", entry.name.as_slice(), e.as_str()));
                        },
                    }
                }
                i += 1;
            }
            proof {
                assert(entries@.take(i as int) =~= entries@);
            }
            match broke {
                Some(e) => Err(about("reading ", name, e.as_str())),
                None => Ok(children),
            }
        },
    }
}

/// A directory that is being emptied.
#[derive(Debug)]
pub struct Frame {
    /// This directory's name within its own parent.
    pub name: Vec<u8>,
    pub disk: u64,
    pub children: Vec<Child>,
    pub pos: usize,
}

/// What the removal of a tree is waiting for.
#[derive(Debug)]
pub enum Waiting {
    Open { name: Vec<u8>, disk: u64 },
    Go,
    Unlink { name: Vec<u8>, disk: u64 },
    RemoveDir { name: Vec<u8>, disk: u64 },
    Over,
}

/// What the removal of a tree asks for next. Names are relative to the innermost directory that is
/// open.
#[derive(Debug)]
pub enum RemoveAct {
    /// Open this directory, see that it can be written to, and list it.
    Open { name: Vec<u8> },
    /// See whether someone has asked to stop.
    CheckPause,
    Unlink { name: Vec<u8> },
    /// Close the innermost directory and remove it, relative to the one around it.
    RemoveDir { name: Vec<u8> },
    /// The point at which part of a tree is gone and no completion is recorded.
    Announce,
    Finished(Step),
    Failed(String),
}

/// The sum of some sizes.
pub open spec fn sum(sizes: Seq<u64>) -> nat
    decreases sizes.len(),
{
    if sizes.len() == 0 {
        0
    } else {
        sum(sizes.drop_last()) + sizes.last() as nat
    }
}

proof fn lemma_sum_push(sizes: Seq<u64>, x: u64)
    ensures
        sum(sizes.push(x)) == sum(sizes) + x,
{
    assert(sizes.push(x).drop_last() =~= sizes);
}

/// The removal of a directory and everything under it, deepest entry first.
///
/// Iterative rather than recursive: a pathological tree should fail the depth check, not overflow
/// the stack of a process that is in the middle of deleting things.
pub struct Removal {
    pub stack: Vec<Frame>,
    pub freed: u64,
    pub announced: bool,
    pub waiting: Waiting,
    /// How much each entry took up that is gone by now, in the order they went.
    pub gone: Ghost<Seq<u64>>,
    /// The directory and every entry that was listed under it, by the names on the way there.
    pub found: Ghost<Set<Seq<Seq<u8>>>>,
    /// Every one of them that is gone by now.
    pub cleared: Ghost<Set<Seq<Seq<u8>>>>,
    /// Those that went by a plain unlink.
    pub unlinked: Ghost<Set<Seq<Seq<u8>>>>,
    /// What each directory that was opened was said to hold, whether that is a directory, and what
    /// it takes up.
    pub told: Ghost<Map<Seq<Seq<u8>>, Set<(Seq<u8>, bool, u64)>>>,
    /// The directory to remove.
    pub root: Ghost<Seq<u8>>,
    /// What that directory takes up by itself.
    pub size: Ghost<u64>,
}

/// The names of the first `n` directories that are open, outermost first.
pub open spec fn trail(stack: Seq<Frame>, n: int) -> Seq<Seq<u8>> {
    Seq::new(n as nat, |i: int| stack[i].name@)
}

/// The way to each entry of a directory.
pub open spec fn ways_in(dir: Seq<Seq<u8>>, children: Seq<(Seq<u8>, bool, u64)>) -> Set<
    Seq<Seq<u8>>,
> {
    Set::new(
        |p: Seq<Seq<u8>>|
            exists|j: int| 0 <= j < children.len() && p == dir.push((#[trigger] children[j]).0),
    )
}

impl Removal {
    /// What a directory was said to hold, which is nothing where it was never opened.
    pub open spec fn told_of(&self, p: Seq<Seq<u8>>) -> Set<(Seq<u8>, bool, u64)> {
        if self.told@.contains_key(p) {
            self.told@[p]
        } else {
            Set::empty()
        }
    }

    /// Whether everything goes in its turn: what a directory holds before the directory, and what
    /// is unlinked was listed as no directory.
    pub open spec fn is_orderly(&self) -> bool {
        &&& self.found@.contains(seq![self.root@])
        &&& forall|p: Seq<Seq<u8>>, e: (Seq<u8>, bool, u64)| #[trigger]
            self.told_of(p).contains(e) ==> self.found@.contains(p.push(e.0))
        &&& forall|p: Seq<Seq<u8>>| #[trigger]
            self.cleared@.contains(p) ==> p.len() > 0 && p[0] == self.root@
        &&& forall|p: Seq<Seq<u8>>| #[trigger]
            self.cleared@.contains(p) && !self.unlinked@.contains(p) ==> self.is_emptied(p)
        &&& forall|p: Seq<Seq<u8>>| #[trigger]
            self.unlinked@.contains(p) ==> self.is_plain(p)
        &&& forall|i: int| 0 <= i < self.stack@.len() ==> self.is_told(#[trigger] self.stack@[i], i)
        &&& match self.waiting {
            Waiting::Open { name, disk } => self.is_known(
                self.stack@.len() as int,
                (name@, true, disk),
            ),
            Waiting::Unlink { name, disk } => self.told_of(
                trail(self.stack@, self.stack@.len() as int),
            ).contains((name@, false, disk)),
            Waiting::RemoveDir { name, disk } => {
                &&& self.is_known(self.stack@.len() as int, (name@, true, disk))
                &&& self.told@.contains_key(
                    trail(self.stack@, self.stack@.len() as int).push(name@),
                )
            },
            _ => true,
        }
    }

    /// Whether an entry was listed as no directory.
    pub open spec fn is_plain(&self, p: Seq<Seq<u8>>) -> bool {
        p.len() > 0 && exists|disk: u64| #[trigger]
            self.told_of(p.drop_last()).contains((p.last(), false, disk))
    }

    /// Whether an entry of the innermost but `n` directories is the directory to remove, or was
    /// listed.
    pub open spec fn is_known(&self, n: int, e: (Seq<u8>, bool, u64)) -> bool {
        if n == 0 {
            e == (self.root@, true, self.size@)
        } else {
            self.told_of(trail(self.stack@, n)).contains(e)
        }
    }

    /// Whether a directory was opened and all that it was said to hold is gone.
    pub open spec fn is_emptied(&self, p: Seq<Seq<u8>>) -> bool {
        &&& self.told@.contains_key(p)
        &&& forall|e: (Seq<u8>, bool, u64)| #[trigger]
            self.told_of(p).contains(e) ==> self.cleared@.contains(p.push(e.0))
    }

    /// Whether an open directory holds no more than it was said to hold, and is still there.
    pub open spec fn is_told(&self, frame: Frame, i: int) -> bool {
        let p = trail(self.stack@, i + 1);
        &&& self.told@.contains_key(p)
        &&& !self.cleared@.contains(p)
        &&& self.is_known(i, (frame.name@, true, frame.disk))
        &&& forall|j: int|
            0 <= j < frame.children@.len() ==> self.told_of(p).contains(
                child_view(#[trigger] frame.children@[j]),
            )
    }

    pub open spec fn wf(&self) -> bool {
        &&& self.is_orderly()
        &&& self.stack@.len() <= MAX_DEPTH
        &&& forall|i: int|
            0 <= i < self.stack@.len() ==> (#[trigger] self.stack@[i]).pos
                <= self.stack@[i].children@.len()
        &&& self.freed == sum(self.gone@)
        &&& self.announced ==> self.gone@.len() > 0
        &&& self.waiting is Go || self.waiting is Unlink ==> self.stack@.len() > 0
        // Nothing that was found is lost sight of.
        &&& !(self.waiting is Over) ==> forall|p: Seq<Seq<u8>>| #[trigger]
            self.found@.contains(p) ==> self.cleared@.contains(p) || self.awaits(p)
    }

    /// Whether `p` leads to a directory that is being emptied.
    pub open spec fn is_open(&self, i: int, p: Seq<Seq<u8>>) -> bool {
        0 <= i < self.stack@.len() && p == trail(self.stack@, i + 1)
    }

    /// Whether `p` leads to an entry that has yet to have its turn.
    pub open spec fn is_due(&self, i: int, j: int, p: Seq<Seq<u8>>) -> bool {
        &&& 0 <= i < self.stack@.len()
        &&& self.stack@[i].pos <= j < self.stack@[i].children@.len()
        &&& p == trail(self.stack@, i + 1).push(self.stack@[i].children@[j].name@)
    }

    /// The way to the entry whose turn it is.
    pub open spec fn in_hand(&self) -> Option<Seq<Seq<u8>>> {
        let here = trail(self.stack@, self.stack@.len() as int);
        match self.waiting {
            Waiting::Open { name, .. } => Some(here.push(name@)),
            Waiting::Unlink { name, .. } => Some(here.push(name@)),
            Waiting::RemoveDir { name, .. } => Some(here.push(name@)),
            _ => None,
        }
    }

    /// Whether what `p` leads to is still to go.
    pub open spec fn awaits(&self, p: Seq<Seq<u8>>) -> bool {
        ||| exists|i: int| #[trigger] self.is_open(i, p)
        ||| exists|i: int, j: int| #[trigger] self.is_due(i, j, p)
        ||| self.in_hand() == Some(p)
    }

    /// Whether everything that was found is gone.
    pub open spec fn all_cleared(&self) -> bool {
        forall|p: Seq<Seq<u8>>| #[trigger] self.found@.contains(p) ==> self.cleared@.contains(p)
    }

    /// With the directories as they were, only what was in hand can have gone.
    proof fn lemma_same_dirs(self, before: Removal)
        requires
            self.stack == before.stack,
        ensures
            forall|p: Seq<Seq<u8>>| #[trigger]
                before.awaits(p) && before.in_hand() != Some(p) ==> self.awaits(p),
    {
        assert forall|p: Seq<Seq<u8>>| #[trigger] before.awaits(p) && before.in_hand() != Some(
            p,
        ) implies self.awaits(p) by {
            if exists|i: int| #[trigger] before.is_open(i, p) {
                let i = choose|i: int| #[trigger] before.is_open(i, p);
                assert(self.is_open(i, p));
            } else {
                let (i, j) = choose|i: int, j: int| #[trigger] before.is_due(i, j, p);
                assert(self.is_due(i, j, p));
            }
        }
    }

    /// A directory that was just opened takes the place of the entry in hand.
    proof fn lemma_opened(self, before: Removal, here: Seq<Seq<u8>>)
        requires
            before.in_hand() == Some(here),
            self.stack@.len() == before.stack@.len() + 1,
            self.stack@.drop_last() == before.stack@,
            here == trail(before.stack@, before.stack@.len() as int).push(self.top().name@),
            self.top().pos == 0,
            self.found@ == before.found@.union(
                ways_in(here, self.top().children@.map_values(|c: Child| child_view(c))),
            ),
            self.cleared@ == before.cleared@.remove(here),
            forall|p: Seq<Seq<u8>>| #[trigger]
                before.found@.contains(p) ==> before.cleared@.contains(p) || before.awaits(p),
        ensures
            forall|p: Seq<Seq<u8>>| #[trigger]
                self.found@.contains(p) ==> self.cleared@.contains(p) || self.awaits(p),
    {
        let n = before.stack@.len() as int;
        assert(trail(self.stack@, n + 1) =~= here) by {
            assert forall|i: int| 0 <= i < n implies self.stack@[i] == before.stack@[i] by {
                assert(self.stack@.drop_last()[i] == before.stack@[i]);
            }
        }
        assert forall|p: Seq<Seq<u8>>| #[trigger]
            self.found@.contains(p) implies self.cleared@.contains(p) || self.awaits(p) by {
            let children = self.top().children@.map_values(|c: Child| child_view(c));
            if ways_in(here, children).contains(p) {
                let j = choose|j: int|
                    0 <= j < children.len() && p == here.push((#[trigger] children[j]).0);
                assert(self.is_due(n, j, p));
            } else if p == here {
                assert(self.is_open(n, p));
            } else if before.awaits(p) {
                if exists|i: int| #[trigger] before.is_open(i, p) {
                    let i = choose|i: int| #[trigger] before.is_open(i, p);
                    self.lemma_same_trail(before, i);
                    assert(self.is_open(i, p));
                } else {
                    let (i, j) = choose|i: int, j: int| #[trigger] before.is_due(i, j, p);
                    self.lemma_same_trail(before, i);
                    assert(self.is_due(i, j, p));
                }
            }
        }
    }

    proof fn lemma_opened_in_order(self, before: Removal, here: Seq<Seq<u8>>)
        requires
            before.is_orderly(),
            before.waiting is Open,
            before.in_hand() == Some(here),
            self.waiting is Go,
            self.stack@.len() == before.stack@.len() + 1,
            self.stack@.drop_last() == before.stack@,
            here == trail(before.stack@, before.stack@.len() as int).push(self.top().name@),
            self.top().disk == before.waiting->Open_disk,
            self.root == before.root,
            self.size == before.size,
            self.unlinked == before.unlinked,
            ({
                let seen = self.top().children@.map_values(|c: Child| child_view(c));
                &&& self.found@ == before.found@.union(ways_in(here, seen))
                &&& self.told@ == before.told@.insert(
                    here,
                    before.told_of(here).union(seen.to_set()),
                )
            }),
            self.cleared@ == before.cleared@.remove(here),
        ensures
            self.is_orderly(),
    {
        let n = before.stack@.len() as int;
        let seen = self.top().children@.map_values(|c: Child| child_view(c));
        let held = seen.to_set();
        assert(trail(self.stack@, n + 1) =~= here) by {
            assert forall|i: int| 0 <= i < n implies self.stack@[i] == before.stack@[i] by {
                assert(self.stack@.drop_last()[i] == before.stack@[i]);
            }
        }
        assert forall|p: Seq<Seq<u8>>, e: (Seq<u8>, bool, u64)| #[trigger]
            self.told_of(p).contains(e) implies self.found@.contains(p.push(e.0)) by {
            if p == here && held.contains(e) {
                let j = choose|j: int| 0 <= j < seen.len() && seen[j] == e;
                assert(ways_in(here, seen).contains(here.push(seen[j].0)));
            } else {
                assert(before.told_of(p).contains(e));
            }
        }
        assert forall|p: Seq<Seq<u8>>| #[trigger]
            self.cleared@.contains(p) && !self.unlinked@.contains(p) implies self.is_emptied(p) by {
            assert(before.cleared@.contains(p));
            assert(before.is_emptied(p));
            assert forall|e: (Seq<u8>, bool, u64)| #[trigger]
                self.told_of(p).contains(e) implies self.cleared@.contains(p.push(e.0)) by {
                assert(before.told_of(p).contains(e));
                if p.push(e.0) == here {
                    // The directory around it is open, so it cannot have gone.
                    assert(p =~= here.drop_last());
                    assert(here.drop_last() =~= trail(before.stack@, n));
                    if n > 0 {
                        assert(before.is_told(before.stack@[n - 1], n - 1));
                    }
                }
            }
        }
        assert forall|p: Seq<Seq<u8>>| #[trigger] self.unlinked@.contains(p) implies self.is_plain(
            p,
        ) by {
            assert(before.is_plain(p));
            let disk = choose|disk: u64| #[trigger]
                before.told_of(p.drop_last()).contains((p.last(), false, disk));
            assert(self.told_of(p.drop_last()).contains((p.last(), false, disk)));
        }
        assert forall|i: int| 0 <= i < self.stack@.len() implies self.is_told(
            #[trigger] self.stack@[i],
            i,
        ) by {
            let frame = self.stack@[i];
            let p = trail(self.stack@, i + 1);
            if i < n {
                self.lemma_same_trail(before, i);
                assert(before.is_told(before.stack@[i], i));
                assert(p.len() != here.len());
                assert forall|j: int| 0 <= j < frame.children@.len() implies self.told_of(
                    p,
                ).contains(child_view(#[trigger] frame.children@[j])) by {
                    assert(before.told_of(p).contains(child_view(frame.children@[j])));
                }
                self.lemma_still_known(before, here, i, (frame.name@, true, frame.disk));
            } else {
                assert forall|j: int| 0 <= j < frame.children@.len() implies self.told_of(
                    p,
                ).contains(child_view(#[trigger] frame.children@[j])) by {
                    assert(seen[j] == child_view(frame.children@[j]));
                    assert(seen.contains(seen[j]));
                }
                assert(here.last() == self.top().name@);
                assert(here.last() == before.waiting->Open_name@);
                self.lemma_still_known(before, here, n, (frame.name@, true, frame.disk));
            }
        }
    }

    /// What was known of an entry stands once another directory was opened.
    proof fn lemma_still_known(
        self,
        before: Removal,
        here: Seq<Seq<u8>>,
        i: int,
        e: (Seq<u8>, bool, u64),
    )
        requires
            0 <= i <= before.stack@.len(),
            before.is_known(i, e),
            self.stack@.len() == before.stack@.len() + 1,
            self.stack@.drop_last() == before.stack@,
            self.root == before.root,
            self.size == before.size,
            forall|p: Seq<Seq<u8>>, x: (Seq<u8>, bool, u64)| #[trigger]
                before.told_of(p).contains(x) ==> self.told_of(p).contains(x),
        ensures
            self.is_known(i, e),
    {
        if i > 0 {
            self.lemma_same_trail(before, i - 1);
        }
    }

    /// Nothing more happens, so everything stays as it was.
    proof fn lemma_over_in_order(self, before: Removal)
        requires
            before.is_orderly(),
            self.waiting is Over,
            self.stack == before.stack,
            self.found == before.found,
            self.cleared == before.cleared,
            self.unlinked == before.unlinked,
            self.told == before.told,
            self.root == before.root,
            self.size == before.size,
        ensures
            self.is_orderly(),
    {
        self.lemma_same_told(before);
        assert forall|p: Seq<Seq<u8>>| #[trigger]
            self.cleared@.contains(p) && !self.unlinked@.contains(p) implies self.is_emptied(p) by {
            assert(before.is_emptied(p));
            assert forall|e: (Seq<u8>, bool, u64)| #[trigger]
                self.told_of(p).contains(e) implies self.cleared@.contains(p.push(e.0)) by {
                assert(before.told_of(p).contains(e));
            }
        }
        assert forall|i: int| 0 <= i < self.stack@.len() implies self.is_told(
            #[trigger] self.stack@[i],
            i,
        ) by {
            assert(before.is_told(before.stack@[i], i));
        }
    }

    proof fn lemma_taken_in_order(self, before: Removal)
        requires
            before.wf(),
            before.waiting is Go,
            self.found == before.found,
            self.cleared == before.cleared,
            self.unlinked == before.unlinked,
            self.told == before.told,
            self.root == before.root,
            self.size == before.size,
            ({
                let top = before.top();
                if top.pos < top.children@.len() {
                    let child = top.children@[top.pos as int];
                    &&& self.stack@.len() == before.stack@.len()
                    &&& self.stack@.drop_last() == before.stack@.drop_last()
                    &&& self.top() == (Frame { pos: (top.pos + 1) as usize, ..top })
                    &&& if child.is_dir {
                        self.waiting matches Waiting::Open { name, disk } && name@ == child.name@
                            && disk == child.disk
                    } else {
                        self.waiting matches Waiting::Unlink { name, disk } && name@ == child.name@
                            && disk == child.disk
                    }
                } else {
                    &&& self.stack@ == before.stack@.drop_last()
                    &&& self.waiting matches Waiting::RemoveDir { name, disk } && name@ == top.name@
                        && disk == top.disk
                }
            }),
        ensures
            self.is_orderly(),
    {
        let n = before.stack@.len() - 1;
        assert forall|k: int| 0 <= k < self.stack@.len() implies self.stack@[k].name
            == before.stack@[k].name && self.stack@[k].children == before.stack@[k].children
            && self.stack@[k].disk == before.stack@[k].disk by {
            if k < n {
                assert(before.stack@.drop_last()[k] == before.stack@[k]);
                if self.stack@.len() > n {
                    assert(self.stack@.drop_last()[k] == self.stack@[k]);
                }
            }
        }
        assert forall|i: int| 0 <= i < self.stack@.len() implies self.is_told(
            #[trigger] self.stack@[i],
            i,
        ) by {
            assert(before.is_told(before.stack@[i], i));
            assert(trail(self.stack@, i + 1) =~= trail(before.stack@, i + 1));
            assert(trail(self.stack@, i) =~= trail(before.stack@, i));
        }
        assert(before.is_told(before.stack@[n], n));
        assert(trail(self.stack@, n) =~= trail(before.stack@, n));
        if self.stack@.len() > n {
            assert(trail(self.stack@, n + 1) =~= trail(before.stack@, n + 1));
        } else {
            assert(trail(self.stack@, n).push(before.top().name@) =~= trail(before.stack@, n + 1));
        }
        assert forall|p: Seq<Seq<u8>>| #[trigger]
            self.cleared@.contains(p) && !self.unlinked@.contains(p) implies self.is_emptied(p) by {
            assert(before.is_emptied(p));
            assert forall|e: (Seq<u8>, bool, u64)| #[trigger]
                self.told_of(p).contains(e) implies self.cleared@.contains(p.push(e.0)) by {
                assert(before.told_of(p).contains(e));
            }
        }
        self.lemma_same_told(before);
    }

    /// What was told stands as long as nothing more is.
    proof fn lemma_same_told(self, before: Removal)
        requires
            before.is_orderly(),
            self.told == before.told,
            self.found == before.found,
        ensures
            forall|p: Seq<Seq<u8>>| self.told_of(p) == #[trigger] before.told_of(p),
            forall|p: Seq<Seq<u8>>, e: (Seq<u8>, bool, u64)| #[trigger]
                self.told_of(p).contains(e) ==> self.found@.contains(p.push(e.0)),
    {
        assert forall|p: Seq<Seq<u8>>, e: (Seq<u8>, bool, u64)| #[trigger]
            self.told_of(p).contains(e) implies self.found@.contains(p.push(e.0)) by {
            assert(before.told_of(p).contains(e));
        }
    }

    /// The entry in hand went.
    proof fn lemma_gone_in_order(self, before: Removal)
        requires
            before.wf(),
            before.waiting is Unlink || before.waiting is RemoveDir,
            self.waiting is Go || self.waiting is Over,
            self.stack == before.stack,
            self.found == before.found,
            self.told == before.told,
            self.root == before.root,
            self.size == before.size,
            self.cleared@ == before.cleared@.insert(before.in_hand()->0),
            self.unlinked@ == (if before.waiting is Unlink {
                before.unlinked@.insert(before.in_hand()->0)
            } else {
                before.unlinked@
            }),
        ensures
            self.is_orderly(),
    {
        let gone = before.in_hand()->0;
        let n = before.stack@.len() as int;
        let here = trail(before.stack@, n);
        self.lemma_same_told(before);
        assert(gone.drop_last() =~= here);
        assert(gone[0] == self.root@) by {
            if n > 0 {
                assert(gone[0] == here[0]);
            }
        }
        assert forall|p: Seq<Seq<u8>>| #[trigger]
            self.cleared@.contains(p) && !self.unlinked@.contains(p) implies self.is_emptied(p) by {
            if p == gone {
                assert forall|e: (Seq<u8>, bool, u64)| #[trigger]
                    self.told_of(p).contains(e) implies self.cleared@.contains(p.push(e.0)) by {
                    assert(before.told_of(p).contains(e));
                    let q = p.push(e.0);
                    assert(before.found@.contains(q));
                    // It lies deeper than anything that is still to go.
                    assert(q.len() == n + 2);
                    if before.awaits(q) {
                        if exists|i: int| #[trigger] before.is_open(i, q) {
                            let i = choose|i: int| #[trigger] before.is_open(i, q);
                            assert(trail(before.stack@, i + 1).len() == i + 1);
                        } else if exists|i: int, j: int| #[trigger] before.is_due(i, j, q) {
                            let (i, j) = choose|i: int, j: int| #[trigger] before.is_due(i, j, q);
                            assert(trail(before.stack@, i + 1).len() == i + 1);
                        }
                    }
                }
            } else {
                assert(before.cleared@.contains(p));
                assert(before.is_emptied(p));
                assert forall|e: (Seq<u8>, bool, u64)| #[trigger]
                    self.told_of(p).contains(e) implies self.cleared@.contains(p.push(e.0)) by {
                    assert(before.told_of(p).contains(e));
                }
            }
        }
        assert forall|i: int| 0 <= i < self.stack@.len() implies self.is_told(
            #[trigger] self.stack@[i],
            i,
        ) by {
            assert(before.is_told(before.stack@[i], i));
            assert(trail(self.stack@, i + 1).len() == i + 1);
        }
    }

    proof fn lemma_same_trail(self, before: Removal, i: int)
        requires
            0 <= i < before.stack@.len(),
            self.stack@.len() > 0,
            self.stack@.drop_last() == before.stack@,
        ensures
            self.stack@[i] == before.stack@[i],
            trail(self.stack@, i + 1) == trail(before.stack@, i + 1),
    {
        assert forall|k: int| 0 <= k <= i implies self.stack@[k] == before.stack@[k] by {
            assert(self.stack@.drop_last()[k] == before.stack@[k]);
        }
        assert(trail(self.stack@, i + 1) =~= trail(before.stack@, i + 1));
    }

    /// The next entry of the innermost directory is taken in hand, or the directory itself.
    proof fn lemma_taken(self, before: Removal)
        requires
            before.wf(),
            before.waiting is Go,
            self.found == before.found,
            self.cleared == before.cleared,
            ({
                let top = before.top();
                let here = trail(self.stack@, self.stack@.len() as int);
                if top.pos < top.children@.len() {
                    &&& self.stack@.len() == before.stack@.len()
                    &&& self.stack@.drop_last() == before.stack@.drop_last()
                    &&& self.top() == (Frame { pos: (top.pos + 1) as usize, ..top })
                    &&& self.in_hand() == Some(here.push(top.children@[top.pos as int].name@))
                } else {
                    &&& self.stack@ == before.stack@.drop_last()
                    &&& self.in_hand() == Some(here.push(top.name@))
                }
            }),
        ensures
            forall|p: Seq<Seq<u8>>| #[trigger]
                self.found@.contains(p) ==> self.cleared@.contains(p) || self.awaits(p),
    {
        let n = before.stack@.len() - 1;
        assert forall|k: int| 0 <= k < n implies self.stack@[k] == before.stack@[k] by {
            assert(before.stack@.drop_last()[k] == before.stack@[k]);
            if self.stack@.len() > n {
                assert(self.stack@.drop_last()[k] == self.stack@[k]);
            }
        }
        assert forall|i: int| 0 <= i < n implies trail(self.stack@, i + 1) == #[trigger] trail(
            before.stack@,
            i + 1,
        ) by {
            assert(trail(self.stack@, i + 1) =~= trail(before.stack@, i + 1));
        }
        if self.stack@.len() > n {
            assert(trail(self.stack@, n + 1) =~= trail(before.stack@, n + 1));
        } else {
            assert(trail(self.stack@, n).push(before.top().name@) =~= trail(before.stack@, n + 1));
        }
        assert forall|p: Seq<Seq<u8>>| #[trigger]
            self.found@.contains(p) implies self.cleared@.contains(p) || self.awaits(p) by {
            assert(before.found@.contains(p));
            if before.awaits(p) {
                if exists|i: int| #[trigger] before.is_open(i, p) {
                    let i = choose|i: int| #[trigger] before.is_open(i, p);
                    if i < n {
                        assert(self.is_open(i, p));
                    } else if self.stack@.len() > n {
                        assert(self.is_open(n, p));
                    }
                } else {
                    let (i, j) = choose|i: int, j: int| #[trigger] before.is_due(i, j, p);
                    if i < n {
                        assert(self.is_due(i, j, p));
                    } else if j > before.top().pos {
                        assert(self.is_due(n, j, p));
                    }
                }
            }
        }
    }

    /// The directory being emptied.
    pub open spec fn top(&self) -> Frame {
        self.stack@.last()
    }

    /// How much the entry that is about to go takes up.
    pub open spec fn at_stake(&self) -> u64 {
        match self.waiting {
            Waiting::Unlink { disk, .. } => disk,
            Waiting::RemoveDir { disk, .. } => disk,
            _ => 0,
        }
    }

    /// What follows an entry that went: the end, once the last directory has been removed.
    pub open spec fn carries_on(&self, act: RemoveAct) -> bool {
        if self.stack@.len() == 0 {
            act == RemoveAct::Finished(Step::Done(self.freed)) && self.waiting is Over
                && self.all_cleared()
        } else {
            act is CheckPause && self.waiting is Go
        }
    }

    /// Start with the directory `name`, which takes up `disk` itself.
    pub fn begin(name: Vec<u8>, disk: u64) -> (r: (Removal, RemoveAct))
        ensures
            r.0.wf(),
            r.0.stack@.len() == 0,
            r.0.freed == 0,
            r.0.gone@.len() == 0,
            !r.0.announced,
            r.0.found@ == set![seq![name@]],
            r.0.cleared@ == Set::<Seq<Seq<u8>>>::empty(),
            r.0.unlinked@ == Set::<Seq<Seq<u8>>>::empty(),
            r.0.told@ == Map::<Seq<Seq<u8>>, Set<(Seq<u8>, bool, u64)>>::empty(),
            r.0.root@ == name@,
            r.0.size@ == disk,
            r.0.waiting matches Waiting::Open { name: n, disk: d } && n@ == name@ && d == disk,
            r.1 matches RemoveAct::Open { name: n } && n@ == name@,
    {
        let again = copy_bytes(name.as_slice());
        let ghost whole = seq![name@];
        let ghost found = set![whole];
        proof {
            assert(trail(Seq::<Frame>::empty(), 0).push(name@) =~= whole);
        }
        (
            Removal {
                stack: Vec::new(),
                freed: 0,
                announced: false,
                waiting: Waiting::Open { name, disk },
                gone: Ghost(Seq::empty()),
                found: Ghost(found),
                cleared: Ghost(Set::empty()),
                unlinked: Ghost(Set::empty()),
                told: Ghost(Map::empty()),
                root: Ghost(whole[0]),
                size: Ghost(disk),
            },
            RemoveAct::Open { name: again },
        )
    }

    /// A directory was opened, or was not.
    pub fn opened(&mut self, reply: &FrameReply) -> (r: RemoveAct)
        requires
            old(self).wf(),
            old(self).waiting is Open,
        ensures
            final(self).wf(),
            final(self).freed == old(self).freed,
            final(self).gone == old(self).gone,
            final(self).unlinked == old(self).unlinked,
            final(self).root == old(self).root,
            final(self).size == old(self).size,
            final(self).announced == old(self).announced,
            ({
                let name = old(self).waiting->Open_name@;
                let disk = old(self).waiting->Open_disk;
                match frame_fault(name, *reply) {
                    Some(e) => {
                        &&& r matches RemoveAct::Failed(text) && text@ == e
                        &&& final(self).found == old(self).found
                        &&& final(self).cleared == old(self).cleared
                        &&& final(self).told == old(self).told
                        &&& final(self).waiting is Over
                        &&& final(self).stack == old(self).stack
                    },
                    None => if old(self).stack@.len() >= MAX_DEPTH {
                        &&& r matches RemoveAct::Failed(text) && text@
                            == "directory nesting deeper than 512 levels"@
                        &&& final(self).found == old(self).found
                        &&& final(self).cleared == old(self).cleared
                        &&& final(self).told == old(self).told
                        &&& final(self).waiting is Over
                        &&& final(self).stack == old(self).stack
                    } else {
                        &&& r is CheckPause
                        &&& final(self).cleared@ == old(self).cleared@.remove(
                            old(self).in_hand()->0,
                        )
                        &&& final(self).told@ == old(self).told@.insert(
                            old(self).in_hand()->0,
                            old(self).told_of(old(self).in_hand()->0).union(
                                children_in(reply->Entries_entries@).to_set(),
                            ),
                        )
                        &&& final(self).found@ == old(self).found@.union(
                            ways_in(
                                old(self).in_hand()->0,
                                children_in(reply->Entries_entries@),
                            ),
                        )
                        &&& final(self).waiting is Go
                        &&& final(self).stack@.len() == old(self).stack@.len() + 1
                        &&& final(self).stack@.drop_last() == old(self).stack@
                        &&& final(self).top().name@ == name
                        &&& final(self).top().disk == disk
                        &&& final(self).top().pos == 0
                        &&& final(self).top().children@.map_values(|c: Child| child_view(c))
                            == children_in(reply->Entries_entries@)
                    },
                }
            }),
    {
        let mut waiting = Waiting::Over;
        std::mem::swap(&mut waiting, &mut self.waiting);
        proof {
            self.lemma_over_in_order(*old(self));
        }
        match waiting {
            Waiting::Open { name, disk } => match read_frame(name.as_slice(), reply) {
                Err(e) => RemoveAct::Failed(e),
                Ok(children) => {
                    if self.stack.len() >= MAX_DEPTH {
                        return RemoveAct::Failed(
                            String::from_str("directory nesting deeper than 512 levels"),
                        );
                    }
                    let ghost before = self.stack@;
                    let ghost seen = children@.map_values(|c: Child| child_view(c));
                    self.stack.push(Frame { name, disk, children, pos: 0 });
                    self.waiting = Waiting::Go;
                    proof {
                        let here = old(self).in_hand()->0;
                        assert(self.stack@.drop_last() =~= before);
                        self.found@ = self.found@.union(ways_in(here, seen));
                        let held = self.told_of(here).union(seen.to_set());
                        self.told@ = self.told@.insert(here, held);
                        self.cleared@ = self.cleared@.remove(here);
                        self.lemma_opened(*old(self), here);
                        self.lemma_opened_in_order(*old(self), here);
                    }
                    RemoveAct::CheckPause
                },
            },
            _ => RemoveAct::CheckPause,
        }
    }

    /// Go on with the innermost directory, unless someone has asked to stop.
    ///
    /// A directory is only removed once every entry found in it has had its turn.
    pub fn go_on(&mut self, paused: bool) -> (r: RemoveAct)
        requires
            old(self).wf(),
            old(self).waiting is Go,
        ensures
            final(self).wf(),
            final(self).freed == old(self).freed,
            final(self).gone == old(self).gone,
            final(self).found == old(self).found,
            final(self).cleared == old(self).cleared,
            final(self).unlinked == old(self).unlinked,
            final(self).told == old(self).told,
            final(self).root == old(self).root,
            final(self).size == old(self).size,
            final(self).announced == old(self).announced,
            if paused {
                &&& r == RemoveAct::Finished(Step::Paused(old(self).freed))
                &&& final(self).stack == old(self).stack
                &&& final(self).waiting is Over
            } else if old(self).top().pos < old(self).top().children@.len() {
                let child = old(self).top().children@[old(self).top().pos as int];
                &&& final(self).stack@.len() == old(self).stack@.len()
                &&& final(self).stack@.drop_last() == old(self).stack@.drop_last()
                &&& final(self).top() == (Frame {
                    pos: (old(self).top().pos + 1) as usize,
                    ..old(self).top()
                })
                &&& if child.is_dir {
                    &&& r matches RemoveAct::Open { name } && name@ == child.name@
                    &&& final(self).waiting matches Waiting::Open { name, disk } && name@
                        == child.name@ && disk == child.disk
                } else {
                    &&& r matches RemoveAct::Unlink { name } && name@ == child.name@
                    &&& final(self).waiting matches Waiting::Unlink { name, disk } && name@
                        == child.name@ && disk == child.disk
                }
            } else {
                &&& final(self).stack@ == old(self).stack@.drop_last()
                &&& r matches RemoveAct::RemoveDir { name } && name@ == old(self).top().name@
                &&& final(self).waiting matches Waiting::RemoveDir { name, disk } && name@
                    == old(self).top().name@ && disk == old(self).top().disk
            },
    {
        if paused {
            self.waiting = Waiting::Over;
            proof {
                self.lemma_over_in_order(*old(self));
            }
            return RemoveAct::Finished(Step::Paused(self.freed));
        }
        let ghost before = self.stack@;
        match self.stack.pop() {
            None => RemoveAct::CheckPause,
            Some(mut top) => {
                proof {
                    assert(before.last() == top);
                    assert(self.stack@ =~= before.drop_last());
                }
                if top.pos < top.children.len() {
                    let child = &top.children[top.pos];
                    let name = copy_bytes(child.name.as_slice());
                    let again = copy_bytes(child.name.as_slice());
                    let is_dir = child.is_dir;
                    let disk: u64 = child.disk;
                    top.pos = top.pos + 1;
                    self.stack.push(top);
                    proof {
                        assert(self.stack@.drop_last() =~= before.drop_last());
                    }
                    if is_dir {
                        self.waiting = Waiting::Open { name, disk };
                        proof {
                            self.lemma_taken(*old(self));
                            self.lemma_taken_in_order(*old(self));
                        }
                        RemoveAct::Open { name: again }
                    } else {
                        self.waiting = Waiting::Unlink { name, disk };
                        proof {
                            self.lemma_taken(*old(self));
                            self.lemma_taken_in_order(*old(self));
                        }
                        RemoveAct::Unlink { name: again }
                    }
                } else {
                    let again = copy_bytes(top.name.as_slice());
                    self.waiting = Waiting::RemoveDir { name: top.name, disk: top.disk };
                    proof {
                        self.lemma_taken(*old(self));
                        self.lemma_taken_in_order(*old(self));
                    }
                    RemoveAct::RemoveDir { name: again }
                }
            },
        }
    }

    /// An entry was unlinked, or was not. One that something else removed first counts: the goal
    /// was that it be gone.
    pub fn unlinked(&mut self, how: &Removed) -> (r: RemoveAct)
        requires
            old(self).wf(),
            old(self).waiting is Unlink,
            old(self).freed + old(self).at_stake() <= u64::MAX,
        ensures
            final(self).wf(),
            final(self).stack == old(self).stack,
            final(self).found == old(self).found,
            final(self).cleared@ == (if how is Failed {
                old(self).cleared@
            } else {
                old(self).cleared@.insert(old(self).in_hand()->0)
            }),
            final(self).unlinked@ == (if how is Failed {
                old(self).unlinked@
            } else {
                old(self).unlinked@.insert(old(self).in_hand()->0)
            }),
            final(self).told == old(self).told,
            final(self).root == old(self).root,
            final(self).size == old(self).size,
            match how {
                Removed::Failed(e) => {
                    &&& r matches RemoveAct::Failed(text) && text@ == "removing "@ + name_text(
                        old(self).waiting->Unlink_name@,
                    ) + ": "@ + e@
                    &&& final(self).waiting is Over
                    &&& final(self).announced == old(self).announced
                    &&& final(self).freed == old(self).freed
                    &&& final(self).gone == old(self).gone
                },
                _ => {
                    &&& final(self).freed == old(self).freed + old(self).at_stake()
                    &&& final(self).gone@ == old(self).gone@.push(old(self).at_stake())
                    &&& final(self).announced
                    &&& final(self).waiting is Go
                    &&& if old(self).announced {
                        r is CheckPause
                    } else {
                        r is Announce
                    }
                },
            },
    {
        let mut waiting = Waiting::Over;
        std::mem::swap(&mut waiting, &mut self.waiting);
        proof {
            self.lemma_over_in_order(*old(self));
        }
        match waiting {
            Waiting::Unlink { name, disk } => {
                match how {
                    Removed::Failed(e) => {
                        return RemoveAct::Failed(about("removing ", name.as_slice(), e.as_str()));
                    },
                    _ => {},
                }
                proof {
                    lemma_sum_push(self.gone@, disk);
                    self.gone@ = self.gone@.push(disk);
                }
                self.freed = self.freed + disk;
                self.waiting = Waiting::Go;
                let told = self.announced;
                self.announced = true;
                proof {
                    self.cleared@ = self.cleared@.insert(old(self).in_hand()->0);
                    self.unlinked@ = self.unlinked@.insert(old(self).in_hand()->0);
                    self.lemma_same_dirs(*old(self));
                    self.lemma_gone_in_order(*old(self));
                }
                if told {
                    RemoveAct::CheckPause
                } else {
                    RemoveAct::Announce
                }
            },
            _ => RemoveAct::CheckPause,
        }
    }

    /// A directory was removed, or was not.
    pub fn dir_removed(&mut self, how: &Removed) -> (r: RemoveAct)
        requires
            old(self).wf(),
            old(self).waiting is RemoveDir,
            old(self).freed + old(self).at_stake() <= u64::MAX,
        ensures
            final(self).wf(),
            final(self).stack == old(self).stack,
            final(self).announced == old(self).announced,
            final(self).found == old(self).found,
            final(self).cleared@ == (if how is Failed {
                old(self).cleared@
            } else {
                old(self).cleared@.insert(old(self).in_hand()->0)
            }),
            final(self).unlinked == old(self).unlinked,
            final(self).told == old(self).told,
            final(self).root == old(self).root,
            final(self).size == old(self).size,
            match how {
                Removed::Failed(e) => {
                    &&& r matches RemoveAct::Failed(text) && text@ == "removing directory "@
                        + name_text(old(self).waiting->RemoveDir_name@) + ": "@ + e@
                    &&& final(self).waiting is Over
                    &&& final(self).freed == old(self).freed
                    &&& final(self).gone == old(self).gone
                },
                _ => {
                    &&& final(self).freed == old(self).freed + old(self).at_stake()
                    &&& final(self).gone@ == old(self).gone@.push(old(self).at_stake())
                    &&& final(self).carries_on(r)
                },
            },
    {
        let mut waiting = Waiting::Over;
        std::mem::swap(&mut waiting, &mut self.waiting);
        proof {
            self.lemma_over_in_order(*old(self));
        }
        match waiting {
            Waiting::RemoveDir { name, disk } => {
                match how {
                    Removed::Failed(e) => {
                        return RemoveAct::Failed(
                            about("removing directory ", name.as_slice(), e.as_str()),
                        );
                    },
                    _ => {},
                }
                proof {
                    lemma_sum_push(self.gone@, disk);
                    self.gone@ = self.gone@.push(disk);
                }
                self.freed = self.freed + disk;
                proof {
                    self.cleared@ = self.cleared@.insert(old(self).in_hand()->0);
                    self.lemma_same_dirs(*old(self));
                    self.lemma_gone_in_order(*old(self));
                }
                if self.stack.len() == 0 {
                    RemoveAct::Finished(Step::Done(self.freed))
                } else {
                    self.waiting = Waiting::Go;
                    proof {
                        self.lemma_same_dirs(*old(self));
                        self.lemma_gone_in_order(*old(self));
                    }
                    RemoveAct::CheckPause
                }
            },
            _ => RemoveAct::CheckPause,
        }
    }
}

} // verus!
