//! Moving.
//!
//! Three ways, cheapest first:
//!
//! 1. Rename. Same filesystem: instant, atomic, consumes nothing.
//! 2. Reflink. Different devices but the same underlying filesystem, where the data can still be
//!    shared rather than duplicated.
//! 3. Copy, verify, then unlink the source. In that order, always. The source is the only copy of
//!    the data until the destination is durable and checked, so it is the last thing to go.
//!
//! A move across filesystems assembles the destination under a temporary name and renames it into
//! place only once it is complete. A half-copied tree therefore never appears at the destination
//! path, and an interrupted move resumes into the same temporary rather than starting again.

use vstd::prelude::*;

use crate::exec::{
    difference, difference_text, has_nul, holds_nul, still_matches, Looked, Opened, Step,
};
use crate::path::{file_name, file_name_of, parent, parent_of};
use crate::plan::{Conflict, EntryKind, Ident};
use crate::stat::Stat;
use crate::text::{cat2, cat3, copy_bytes, dec, decimal, show, shown};

pub mod resume;
pub mod steps;
pub mod whole;

verus! {

/// A move to carry out.
#[derive(Clone, Debug)]
pub struct MoveRequest {
    pub src: Vec<u8>,
    pub dst: Vec<u8>,
    pub ident: Ident,
    pub est_bytes: u64,
    pub on_conflict: Conflict,
    /// False for an operation being resumed, whose own progress explains any drift.
    pub strict: bool,
    pub index: usize,
    /// The finished copy that an earlier run was about to give its real name, if it got that far.
    pub published: Option<Ident>,
    /// Check everything, change nothing.
    pub dry_run: bool,
}

/// What came of a rename.
#[derive(Debug)]
pub enum Renamed {
    Yes,
    /// Not one filesystem after all, or not one the kernel will rename across.
    CrossDevice,
    Failed(String),
}

/// What has just happened to a move. `source` is what the source was found to be.
#[derive(Debug)]
pub enum MoveReply {
    Start,
    /// The directory to move into was to be opened.
    DstDir { error: Option<String> },
    /// The directory to move out of was to be opened.
    SrcDir(Opened),
    /// The source was to be looked at.
    Source(Looked),
    /// The source is missing, and the destination was looked at to see whether it arrived.
    Arrived { found: bool },
    /// The destination was to be looked at.
    Destination { source: Stat, look: Looked },
    Renamed { source: Stat, how: Renamed },
    /// The source was to be copied to the temporary.
    Copied { source: Stat, result: Result<Step, String> },
    /// The finished copy was to be looked at.
    Temporary { source: Stat, look: Looked },
    /// What is about to be published is on record.
    Recorded { source: Stat },
    /// The temporary was to be given its real name.
    Published { source: Stat, error: Option<String> },
    /// Nothing interrupted the run once the copy was published.
    Announced { source: Stat },
    /// The source, which is no directory, was to be unlinked.
    Unlinked { source: Stat, error: Option<String> },
}

/// What a move asks for next. Names are relative to the directories that were opened.
#[derive(Debug)]
pub enum MoveAct {
    OpenDstDir { parent: Vec<u8> },
    OpenSrcDir { parent: Vec<u8> },
    LookSource { name: Vec<u8> },
    /// See whether there is anything at the destination.
    LookArrived { name: Vec<u8> },
    LookDestination { source: Stat, name: Vec<u8> },
    Rename { source: Stat, from: Vec<u8>, to: Vec<u8> },
    /// Copy the source to a temporary beside the destination, according to its kind.
    Copy { source: Stat, kind: EntryKind, from: Vec<u8>, temp: Vec<u8> },
    /// Look at the copy, which is complete.
    LookTemporary { source: Stat, temp: Vec<u8> },
    /// Put on record which entry is about to be given its real name.
    Record { source: Stat, entry: Ident },
    /// Give the temporary its real name, and flush the directory.
    Publish { source: Stat, temp: Vec<u8>, name: Vec<u8> },
    /// The point at which the copy is published and the original still there.
    Announce { source: Stat },
    /// Remove the source directory and everything under it without stopping; what that reclaims is
    /// what the move reclaims.
    RemoveSourceTree { name: Vec<u8>, disk: u64 },
    UnlinkSource { source: Stat, name: Vec<u8> },
    Finished(Step),
    Failed(String),
}

/// What a move asks for, in terms of paths and text.
pub enum MoveAsk {
    OpenDstDir { parent: Seq<u8> },
    OpenSrcDir { parent: Seq<u8> },
    LookSource { name: Seq<u8> },
    LookArrived { name: Seq<u8> },
    LookDestination { source: Stat, name: Seq<u8> },
    Rename { source: Stat, from: Seq<u8>, to: Seq<u8> },
    Copy { source: Stat, kind: EntryKind, from: Seq<u8>, temp: Seq<u8> },
    LookTemporary { source: Stat, temp: Seq<u8> },
    Record { source: Stat, entry: Ident },
    Publish { source: Stat, temp: Seq<u8>, name: Seq<u8> },
    Announce { source: Stat },
    RemoveSourceTree { name: Seq<u8>, disk: u64 },
    UnlinkSource { source: Stat, name: Seq<u8> },
    Finished(Step),
    Failed(Seq<char>),
}

impl View for MoveAct {
    type V = MoveAsk;

    open spec fn view(&self) -> MoveAsk {
        match self {
            MoveAct::OpenDstDir { parent } => MoveAsk::OpenDstDir { parent: parent@ },
            MoveAct::OpenSrcDir { parent } => MoveAsk::OpenSrcDir { parent: parent@ },
            MoveAct::LookSource { name } => MoveAsk::LookSource { name: name@ },
            MoveAct::LookArrived { name } => MoveAsk::LookArrived { name: name@ },
            MoveAct::LookDestination { source, name } => MoveAsk::LookDestination {
                source: *source,
                name: name@,
            },
            MoveAct::Rename { source, from, to } => MoveAsk::Rename {
                source: *source,
                from: from@,
                to: to@,
            },
            MoveAct::Copy { source, kind, from, temp } => MoveAsk::Copy {
                source: *source,
                kind: *kind,
                from: from@,
                temp: temp@,
            },
            MoveAct::LookTemporary { source, temp } => MoveAsk::LookTemporary {
                source: *source,
                temp: temp@,
            },
            MoveAct::Record { source, entry } => MoveAsk::Record {
                source: *source,
                entry: *entry,
            },
            MoveAct::Announce { source } => MoveAsk::Announce { source: *source },
            MoveAct::Publish { source, temp, name } => MoveAsk::Publish {
                source: *source,
                temp: temp@,
                name: name@,
            },
            MoveAct::RemoveSourceTree { name, disk } => MoveAsk::RemoveSourceTree {
                name: name@,
                disk: *disk,
            },
            MoveAct::UnlinkSource { source, name } => MoveAsk::UnlinkSource {
                source: *source,
                name: name@,
            },
            MoveAct::Finished(step) => MoveAsk::Finished(*step),
            MoveAct::Failed(e) => MoveAsk::Failed(e@),
        }
    }
}

/// The directories and names a move acts on.
pub struct Ends {
    pub src_parent: Seq<u8>,
    pub src_name: Seq<u8>,
    pub dst_parent: Seq<u8>,
    pub dst_name: Seq<u8>,
}

/// The directories and names of a move, or why it has none.
pub open spec fn ends_of(src: Seq<u8>, dst: Seq<u8>) -> Result<Ends, Seq<char>> {
    match (parent_of(src), file_name_of(src)) {
        (Some(src_parent), Some(src_name)) => match (parent_of(dst), file_name_of(dst)) {
            (Some(dst_parent), Some(dst_name)) => if holds_nul(src_name) || holds_nul(dst_name) {
                Err("entry name contains a NUL"@)
            } else {
                Ok(Ends { src_parent, src_name, dst_parent, dst_name })
            },
            _ => Err(shown(dst) + " has no parent"@),
        },
        _ => Err(shown(src) + " has no parent"@),
    }
}

/// The name a copy is assembled under. It depends on the operation and the destination alone, so a
/// resumed run finds the same partial copy without consulting the journal.
pub open spec fn temp_of(index: nat, name: Seq<u8>) -> Seq<u8> {
    vstd::utf8::encode_utf8(".ccdu-part-"@ + dec(index) + "-"@) + name
}

pub fn temp_name(index: usize, dst_name: &[u8]) -> (r: Vec<u8>)
    ensures
        r@ == temp_of(index as nat, dst_name@),
{
    let number = decimal(index as u64);
    let lead = cat3(".ccdu-part-", number.as_str(), "-");
    let mut out = copy_bytes(lead.as_str().as_bytes());
    out.extend_from_slice(dst_name);
    proof {
        assert(out@ =~= temp_of(index as nat, dst_name@));
    }
    out
}

/// Reclaim the original once the copy is safely in place.
///
/// Deliberately not interruptible: the destination already holds the data, so stopping half way
/// would leave two copies and a plan that looks unfinished.
pub open spec fn reclaim(ends: Ends, source: Stat) -> MoveAsk {
    if Ident::spec_of(source).kind == EntryKind::Dir {
        MoveAsk::RemoveSourceTree { name: ends.src_name, disk: source.spec_disk() }
    } else {
        MoveAsk::UnlinkSource { source, name: ends.src_name }
    }
}

/// What follows once the source has been looked at.
pub open spec fn after_source(req: MoveRequest, ends: Ends, look: Looked) -> MoveAsk {
    match look {
        Looked::Gone => MoveAsk::LookArrived { name: ends.dst_name },
        Looked::Failed(e) => MoveAsk::Failed(shown(req.src@) + ": "@ + e@),
        Looked::Found(source) => {
            let now = Ident::spec_of(source);
            if still_matches(req.ident, now, req.strict) {
                MoveAsk::LookDestination { source, name: ends.dst_name }
            } else {
                MoveAsk::Failed(
                    shown(req.src@) + " is not what was staged: "@ + difference_text(
                        req.ident,
                        now,
                    ),
                )
            }
        },
    }
}

/// Whether what is at the destination is what this move put there: an earlier run put on record
/// that it was about to publish this very entry.
pub open spec fn is_own(req: MoveRequest, there: Stat) -> bool {
    &&& !req.strict
    &&& req.published matches Some(entry) && still_matches(entry, Ident::spec_of(there), false)
}

/// What follows once the destination has been looked at.
pub open spec fn after_destination(
    req: MoveRequest,
    ends: Ends,
    source: Stat,
    look: Looked,
) -> MoveAsk {
    match look {
        Looked::Found(there) => if is_own(req, there) {
            // The copy was published and the run interrupted before the original was reclaimed.
            if req.dry_run {
                MoveAsk::Finished(Step::Done(req.est_bytes))
            } else {
                reclaim(ends, source)
            }
        } else if req.on_conflict == Conflict::Skip {
            MoveAsk::Finished(Step::Done(0))
        } else {
            MoveAsk::Failed(shown(req.dst@) + " already exists"@)
        },
        Looked::Failed(e) => MoveAsk::Failed(shown(req.dst@) + ": "@ + e@),
        Looked::Gone => if req.dry_run {
            MoveAsk::Finished(Step::Done(req.est_bytes))
        } else {
            MoveAsk::Rename { source, from: ends.src_name, to: ends.dst_name }
        },
    }
}

/// What follows an attempt to rename.
pub open spec fn after_rename(
    req: MoveRequest,
    ends: Ends,
    source: Stat,
    how: Renamed,
) -> MoveAsk {
    match how {
        Renamed::Yes => MoveAsk::Finished(Step::Done(0)),
        Renamed::Failed(e) => MoveAsk::Failed(
            "renaming "@ + shown(req.src@) + " to "@ + shown(req.dst@) + ": "@ + e@,
        ),
        Renamed::CrossDevice => {
            let kind = Ident::spec_of(source).kind;
            if kind == EntryKind::Other {
                MoveAsk::Failed(
                    shown(req.src@)
                        + " is a special file; ccdu will not pretend to have copied it"@,
                )
            } else {
                MoveAsk::Copy {
                    source,
                    kind,
                    from: ends.src_name,
                    temp: temp_of(req.index as nat, ends.dst_name),
                }
            }
        },
    }
}

/// What a move does next.
pub open spec fn move_step(req: MoveRequest, reply: MoveReply) -> MoveAsk {
    match ends_of(req.src@, req.dst@) {
        Err(e) => MoveAsk::Failed(e),
        Ok(ends) => match reply {
            MoveReply::Start => MoveAsk::OpenDstDir { parent: ends.dst_parent },
            MoveReply::DstDir { error: Some(e) } => MoveAsk::Failed(
                "opening destination directory "@ + shown(ends.dst_parent) + ": "@ + e@,
            ),
            MoveReply::DstDir { error: None } => MoveAsk::OpenSrcDir { parent: ends.src_parent },
            MoveReply::SrcDir(Opened::Yes) => MoveAsk::LookSource { name: ends.src_name },
            MoveReply::SrcDir(Opened::Gone) => MoveAsk::LookArrived { name: ends.dst_name },
            MoveReply::SrcDir(Opened::Failed(e)) => MoveAsk::Failed(
                "opening "@ + shown(ends.src_parent) + ": "@ + e@,
            ),
            MoveReply::Source(look) => after_source(req, ends, look),
            // The source is gone. Either an earlier attempt finished the job, or something else
            // took it; the destination decides which.
            MoveReply::Arrived { found } => if found {
                MoveAsk::Finished(Step::Done(0))
            } else {
                MoveAsk::Failed(
                    shown(req.src@) + " is gone and nothing arrived at "@ + shown(req.dst@),
                )
            },
            MoveReply::Destination { source, look } => after_destination(req, ends, source, look),
            MoveReply::Renamed { source, how } => after_rename(req, ends, source, how),
            MoveReply::Copied { source, result } => match result {
                Ok(Step::Done(_)) => MoveAsk::LookTemporary {
                    source,
                    temp: temp_of(req.index as nat, ends.dst_name),
                },
                // Nothing is removed and nothing is renamed, so nothing has been reclaimed: the
                // temporary stays for the resumed run.
                Ok(Step::Paused(_)) => MoveAsk::Finished(Step::Paused(0)),
                Err(e) => MoveAsk::Failed(e@),
            },
            MoveReply::Temporary { source, look } => match look {
                Looked::Found(temp) => MoveAsk::Record { source, entry: Ident::spec_of(temp) },
                Looked::Gone => MoveAsk::Failed(
                    "publishing "@ + shown(req.dst@) + ": the copy is gone"@,
                ),
                Looked::Failed(e) => MoveAsk::Failed(
                    "publishing "@ + shown(req.dst@) + ": "@ + e@,
                ),
            },
            MoveReply::Recorded { source } => MoveAsk::Publish {
                source,
                temp: temp_of(req.index as nat, ends.dst_name),
                name: ends.dst_name,
            },
            MoveReply::Published { source, error: None } => MoveAsk::Announce { source },
            MoveReply::Announced { source } => reclaim(ends, source),
            MoveReply::Published { source, error: Some(e) } => MoveAsk::Failed(
                "publishing "@ + shown(req.dst@) + ": "@ + e@,
            ),
            MoveReply::Unlinked { source, error: None } => MoveAsk::Finished(
                Step::Done(source.spec_disk()),
            ),
            MoveReply::Unlinked { source, error: Some(e) } => MoveAsk::Failed(
                "removing "@ + shown(req.src@) + ": "@ + e@,
            ),
        },
    }
}

fn remove_source(name: Vec<u8>, source: &Stat) -> (r: MoveAct)
    ensures
        r@ == (if Ident::spec_of(*source).kind == EntryKind::Dir {
            MoveAsk::RemoveSourceTree { name: name@, disk: source.spec_disk() }
        } else {
            MoveAsk::UnlinkSource { source: *source, name: name@ }
        }),
{
    if Ident::of(source).kind == EntryKind::Dir {
        MoveAct::RemoveSourceTree { name, disk: source.disk() }
    } else {
        MoveAct::UnlinkSource { source: *source, name }
    }
}

fn own(req: &MoveRequest, there: &Stat) -> (r: bool)
    ensures
        r == is_own(*req, *there),
{
    if req.strict {
        return false;
    }
    match &req.published {
        Some(entry) => {
            let now = Ident::of(there);
            crate::exec::matches(entry, &now, false)
        },
        None => false,
    }
}

fn path_and(path: &[u8], rest: &str) -> (r: String)
    ensures
        r@ == shown(path@) + rest@,
{
    let p = show(path);
    cat2(p.as_str(), rest)
}

/// `what`, the path, a colon and the error.
fn trouble(what: &str, path: &[u8], e: &str) -> (r: String)
    ensures
        r@ == what@ + shown(path@) + ": "@ + e@,
{
    let p = show(path);
    let mut text = cat3(what, p.as_str(), ": ");
    text.append(e);
    text
}

/// Carry out a move: given what has just happened, what to do next.
pub fn run_move(req: &MoveRequest, reply: &MoveReply) -> (r: MoveAct)
    ensures
        r@ == move_step(*req, *reply),
{
    let src = req.src.as_slice();
    let dst = req.dst.as_slice();
    let (src_parent, src_name) = match (parent(src), file_name(src)) {
        (Some(p), Some(n)) => (p, n),
        _ => return MoveAct::Failed(path_and(src, " has no parent")),
    };
    let (dst_parent, dst_name) = match (parent(dst), file_name(dst)) {
        (Some(p), Some(n)) => (p, n),
        _ => return MoveAct::Failed(path_and(dst, " has no parent")),
    };
    if has_nul(src_name.as_slice()) || has_nul(dst_name.as_slice()) {
        return MoveAct::Failed(String::from_str("entry name contains a NUL"));
    }
    match reply {
        MoveReply::Start => MoveAct::OpenDstDir { parent: dst_parent },
        MoveReply::DstDir { error } => match error {
            Some(e) => MoveAct::Failed(
                trouble("opening destination directory ", dst_parent.as_slice(), e.as_str()),
            ),
            None => MoveAct::OpenSrcDir { parent: src_parent },
        },
        MoveReply::SrcDir(opened) => match opened {
            Opened::Yes => MoveAct::LookSource { name: src_name },
            Opened::Gone => MoveAct::LookArrived { name: dst_name },
            Opened::Failed(e) => MoveAct::Failed(
                trouble("opening ", src_parent.as_slice(), e.as_str()),
            ),
        },
        MoveReply::Source(look) => match look {
            Looked::Gone => MoveAct::LookArrived { name: dst_name },
            Looked::Failed(e) => {
                let p = show(src);
                MoveAct::Failed(cat3(p.as_str(), ": ", e.as_str()))
            },
            Looked::Found(source) => {
                let now = Ident::of(source);
                if crate::exec::matches(&req.ident, &now, req.strict) {
                    MoveAct::LookDestination { source: *source, name: dst_name }
                } else {
                    let p = show(src);
                    let d = difference(&req.ident, &now);
                    MoveAct::Failed(cat3(p.as_str(), " is not what was staged: ", d.as_str()))
                }
            },
        },
        MoveReply::Arrived { found } => if *found {
            MoveAct::Finished(Step::Done(0))
        } else {
            let s = show(src);
            let d = show(dst);
            MoveAct::Failed(cat3(s.as_str(), " is gone and nothing arrived at ", d.as_str()))
        },
        MoveReply::Destination { source, look } => match look {
            Looked::Found(there) => if own(req, there) {
                if req.dry_run {
                    MoveAct::Finished(Step::Done(req.est_bytes))
                } else {
                    remove_source(src_name, source)
                }
            } else if req.on_conflict == Conflict::Skip {
                MoveAct::Finished(Step::Done(0))
            } else {
                MoveAct::Failed(path_and(dst, " already exists"))
            },
            Looked::Failed(e) => {
                let p = show(dst);
                MoveAct::Failed(cat3(p.as_str(), ": ", e.as_str()))
            },
            Looked::Gone => if req.dry_run {
                MoveAct::Finished(Step::Done(req.est_bytes))
            } else {
                MoveAct::Rename { source: *source, from: src_name, to: dst_name }
            },
        },
        MoveReply::Renamed { source, how } => match how {
            Renamed::Yes => MoveAct::Finished(Step::Done(0)),
            Renamed::Failed(e) => {
                let s = show(src);
                let d = show(dst);
                let mut text = cat3("renaming ", s.as_str(), " to ");
                text.append(d.as_str());
                text.append(": ");
                text.append(e.as_str());
                MoveAct::Failed(text)
            },
            Renamed::CrossDevice => {
                let kind = Ident::of(source).kind;
                if kind == EntryKind::Other {
                    MoveAct::Failed(
                        path_and(
                            src,
                            " is a special file; ccdu will not pretend to have copied it",
                        ),
                    )
                } else {
                    MoveAct::Copy {
                        source: *source,
                        kind,
                        from: src_name,
                        temp: temp_name(req.index, dst_name.as_slice()),
                    }
                }
            },
        },
        MoveReply::Copied { source, result } => match result {
            Ok(step) => match step {
                Step::Done(_) => MoveAct::LookTemporary {
                    source: *source,
                    temp: temp_name(req.index, dst_name.as_slice()),
                },
                Step::Paused(_) => MoveAct::Finished(Step::Paused(0)),
            },
            Err(e) => MoveAct::Failed(e.clone()),
        },
        MoveReply::Temporary { source, look } => match look {
            Looked::Found(temp) => MoveAct::Record { source: *source, entry: Ident::of(temp) },
            Looked::Gone => {
                let d = show(dst);
                MoveAct::Failed(cat3("publishing ", d.as_str(), ": the copy is gone"))
            },
            Looked::Failed(e) => MoveAct::Failed(trouble("publishing ", dst, e.as_str())),
        },
        MoveReply::Recorded { source } => MoveAct::Publish {
            source: *source,
            temp: temp_name(req.index, dst_name.as_slice()),
            name: dst_name,
        },
        MoveReply::Announced { source } => remove_source(src_name, source),
        MoveReply::Published { source, error } => match error {
            None => MoveAct::Announce { source: *source },
            Some(e) => MoveAct::Failed(trouble("publishing ", dst, e.as_str())),
        },
        MoveReply::Unlinked { source, error } => match error {
            None => MoveAct::Finished(Step::Done(source.disk())),
            Some(e) => MoveAct::Failed(trouble("removing ", src, e.as_str())),
        },
    }
}

/// The source is the last thing to go: it is only removed once this run has published the copy
/// under its real name, or where the destination holds the very entry that an earlier run of the
/// same move put on record before it published it.
pub proof fn law_source_goes_last(req: MoveRequest, reply: MoveReply)
    ensures
        ({
            let ask = move_step(req, reply);
            &&& ask is RemoveSourceTree || ask is UnlinkSource ==> {
                ||| reply is Announced
                ||| (reply matches MoveReply::Destination { look: Looked::Found(there), .. }
                    && is_own(req, there))
            }
            &&& ask is Announce ==> (reply matches MoveReply::Published { error: None, .. })
        }),
{
}

/// What this move did not put at its destination stays, and so does the source, on a fresh run and
/// on a resumed one: the move is passed over where it may be skipped, and fails where it may not.
pub proof fn law_conflicts_leave_both_sides_alone(req: MoveRequest, source: Stat, there: Stat)
    requires
        ends_of(req.src@, req.dst@) is Ok,
        !is_own(req, there),
    ensures
        move_step(req, MoveReply::Destination { source, look: Looked::Found(there) }) == (
        if req.on_conflict == Conflict::Skip {
            MoveAsk::Finished(Step::Done(0))
        } else {
            MoveAsk::Failed(shown(req.dst@) + " already exists"@)
        }),
        req.strict || req.published is None ==> !is_own(req, there),
{
}

/// What a run put on record before it published it is known again by the run that resumes: a
/// rename leaves an entry its device, its inode and its kind.
pub proof fn law_a_published_copy_is_known_again(req: MoveRequest, temp: Stat, there: Stat)
    requires
        !req.strict,
        req.published == Some(Ident::spec_of(temp)),
        still_matches(Ident::spec_of(temp), Ident::spec_of(there), false),
    ensures
        is_own(req, there),
{
}

impl MoveAsk {
    /// Whether this changes anything on disk.
    pub open spec fn is_change(&self) -> bool {
        self is Rename || self is Copy || self is Record || self is Publish
            || self is RemoveSourceTree || self is UnlinkSource
    }
}

impl MoveReply {
    /// Whether this is what came of a change.
    pub open spec fn follows_change(&self) -> bool {
        self is Renamed || self is Copied || self is Temporary || self is Recorded
            || self is Published || self is Announced || self is Unlinked
    }
}

/// A dry run changes nothing: whatever it finds, it never asks for a first change, not even where
/// it takes up an operation that was started before.
pub proof fn law_a_dry_run_changes_nothing(req: MoveRequest, reply: MoveReply)
    requires
        req.dry_run,
        !reply.follows_change(),
    ensures
        !move_step(req, reply).is_change(),
{
}

/// A copy is only published once it is complete, and once it is on record which entry it is.
pub proof fn law_nothing_is_published_half_done(req: MoveRequest, reply: MoveReply)
    ensures
        ({
            let ask = move_step(req, reply);
            &&& ask is Publish ==> reply is Recorded
            &&& ask matches MoveAsk::Record { entry, .. } ==> {
                &&& reply matches MoveReply::Temporary { look: Looked::Found(temp), .. }
                &&& entry == Ident::spec_of(temp)
            }
            &&& ask is LookTemporary ==> (reply matches MoveReply::Copied {
                result: Ok(Step::Done(_)),
                ..
            })
            &&& ask is Copy ==> (reply matches MoveReply::Renamed {
                how: Renamed::CrossDevice,
                ..
            })
        }),
{
}

/// Nothing is renamed onto something that is there, and nothing is moved that is not what was
/// staged.
pub proof fn law_only_what_was_staged_is_moved(req: MoveRequest, reply: MoveReply)
    ensures
        ({
            let ask = move_step(req, reply);
            &&& ask is Rename ==> (reply matches MoveReply::Destination {
                look: Looked::Gone,
                ..
            })
            &&& ask is LookDestination ==> {
                &&& reply matches MoveReply::Source(Looked::Found(stat))
                &&& still_matches(req.ident, Ident::spec_of(stat), req.strict)
            }
        }),
{
}

/// A socket or a device is never said to be copied.
pub proof fn law_special_files_are_not_copied(req: MoveRequest, reply: MoveReply)
    ensures
        move_step(req, reply) matches MoveAsk::Copy { kind, .. } ==> kind != EntryKind::Other,
{
}

} // verus!
