//! What a move ends in, whether or not it was interrupted on the way.
//!
//! Everything here is said of a disk that nothing else writes to meanwhile, and on which the move
//! can be made: its directories can be opened, and its entry is one that can be copied where it
//! cannot be renamed.

use vstd::prelude::*;

use super::{ends_of, move_step, MoveAsk, MoveReply, MoveRequest, Renamed};
use crate::exec::{is_still, shows, still_matches, Opened, Step};
use crate::plan::{EntryKind, Ident};
use crate::stat::Stat;

verus! {

/// The entries a move is about, as far as they are there, and what the journal says it was about to
/// publish.
#[verifier::ext_equal]
pub struct Scene {
    pub source: Option<Stat>,
    pub temp: Option<Stat>,
    pub dst: Option<Stat>,
    pub record: Option<Ident>,
}

/// What an undisturbed disk replies, and what it then holds. Removing a source tree is no step of
/// the move itself: what comes of it is what comes of the move.
pub open spec fn answers(ask: MoveAsk, s: Scene, reply: MoveReply, t: Scene) -> bool {
    match ask {
        MoveAsk::OpenDstDir { .. } => t == s && reply == (MoveReply::DstDir { error: None }),
        MoveAsk::OpenSrcDir { .. } => t == s && {
            ||| reply == MoveReply::SrcDir(Opened::Yes)
            ||| reply == MoveReply::SrcDir(Opened::Gone) && s.source is None
        },
        MoveAsk::LookSource { .. } => t == s && (reply matches MoveReply::Source(look) && shows(
            look,
            s.source,
        )),
        MoveAsk::LookArrived { .. } => t == s && reply == (MoveReply::Arrived {
            found: s.dst is Some,
        }),
        MoveAsk::LookDestination { source, .. } => t == s && (reply matches MoveReply::Destination {
            source: x,
            look,
        } && x == source && shows(look, s.dst)),
        MoveAsk::Rename { source, .. } => {
            ||| {
                &&& reply == (MoveReply::Renamed { source, how: Renamed::Yes })
                &&& t.source is None && is_still(s.source, t.dst)
                &&& t.temp == s.temp && t.record == s.record
            }
            ||| {
                &&& reply == (MoveReply::Renamed { source, how: Renamed::CrossDevice })
                &&& Ident::spec_of(source).kind != EntryKind::Other
                &&& t == s
            }
        },
        MoveAsk::Copy { source, .. } => {
            &&& reply matches MoveReply::Copied { source: x, result: Ok(Step::Done(_)) }
            &&& x == source
            &&& t.temp is Some
            &&& t == (Scene { temp: t.temp, ..s })
        },
        MoveAsk::LookTemporary { source, .. } => t == s && (reply matches MoveReply::Temporary {
            source: x,
            look,
        } && x == source && shows(look, s.temp)),
        MoveAsk::Record { source, entry } => {
            &&& reply == (MoveReply::Recorded { source })
            &&& t == (Scene { record: Some(entry), ..s })
        },
        MoveAsk::Publish { source, .. } => {
            &&& reply == (MoveReply::Published { source, error: None })
            &&& t.temp is None && is_still(s.temp, t.dst)
            &&& t.source == s.source && t.record == s.record
        },
        MoveAsk::Announce { source } => t == s && reply == (MoveReply::Announced { source }),
        MoveAsk::UnlinkSource { source, .. } => {
            &&& reply == (MoveReply::Unlinked { source, error: None })
            &&& t == (Scene { source: None, ..s })
        },
        _ => false,
    }
}

/// What a disk may hold where the run is cut off while it is about what was asked: nothing of it
/// has happened, or all of it, or part of a tree has been copied or removed.
pub open spec fn cut_off(ask: MoveAsk, s: Scene, t: Scene) -> bool {
    ||| t == s
    ||| exists|reply: MoveReply| answers(ask, s, reply, t)
    ||| ask is Copy && t == (Scene { temp: t.temp, ..s })
    ||| ask is RemoveSourceTree && t == (Scene { source: t.source, ..s }) && (t.source is None
        || is_still(s.source, t.source))
}

/// The request that takes a move up again.
pub open spec fn taken_up(req: MoveRequest, s: Scene) -> MoveRequest {
    MoveRequest { strict: false, published: s.record, ..req }
}

/// Whether the disk is as a move finds it that starts, or starts again: what is there of the source
/// is what was staged, the data is in one place at least, and what is at the destination beside the
/// source is what the move put there.
pub open spec fn is_startable(req: MoveRequest, s: Scene) -> bool {
    &&& s.source matches Some(x) ==> still_matches(req.ident, Ident::spec_of(x), req.strict)
    &&& s.dst is None ==> s.source is Some
    &&& req.strict ==> s.dst is None
    &&& req.published == s.record
    &&& s.source is Some ==> (s.dst matches Some(y) ==> s.record matches Some(entry)
        && still_matches(entry, Ident::spec_of(y), false))
}

/// Whether the source is there and the destination is not.
pub open spec fn is_unmoved(req: MoveRequest, source: Stat, s: Scene) -> bool {
    &&& s.source == Some(source)
    &&& still_matches(req.ident, Ident::spec_of(source), false)
    &&& s.dst is None
}

/// Whether the source is there, and at the destination is what is on record.
pub open spec fn is_published(req: MoveRequest, source: Stat, s: Scene) -> bool {
    &&& s.source == Some(source)
    &&& still_matches(req.ident, Ident::spec_of(source), false)
    &&& s.dst matches Some(y)
    &&& s.record matches Some(entry)
    &&& still_matches(entry, Ident::spec_of(y), false)
}

/// Whether the move has been made.
pub open spec fn is_moved(s: Scene) -> bool {
    s.source is None && s.dst is Some
}

/// Whether the disk is as it should be when this has just happened to a move.
pub open spec fn stands(req: MoveRequest, reply: MoveReply, s: Scene) -> bool {
    match reply {
        MoveReply::Start => is_startable(req, s),
        MoveReply::DstDir { error } => error is None && is_startable(req, s),
        MoveReply::SrcDir(opened) => is_startable(req, s) && match opened {
            Opened::Yes => true,
            Opened::Gone => s.source is None,
            Opened::Failed(_) => false,
        },
        MoveReply::Source(look) => is_startable(req, s) && shows(look, s.source),
        MoveReply::Arrived { found } => found && is_moved(s),
        MoveReply::Destination { source, look } => is_startable(req, s) && s.source == Some(source)
            && shows(look, s.dst),
        MoveReply::Renamed { source, how } => match how {
            Renamed::Yes => is_moved(s),
            Renamed::CrossDevice => is_unmoved(req, source, s) && Ident::spec_of(source).kind
                != EntryKind::Other,
            Renamed::Failed(_) => false,
        },
        MoveReply::Copied { source, result } => {
            &&& is_unmoved(req, source, s)
            &&& s.temp is Some
            &&& result matches Ok(Step::Done(_))
        },
        MoveReply::Temporary { source, look } => {
            &&& is_unmoved(req, source, s)
            &&& s.temp is Some
            &&& shows(look, s.temp)
        },
        MoveReply::Recorded { source } => {
            &&& is_unmoved(req, source, s)
            &&& s.temp matches Some(y)
            &&& s.record matches Some(entry)
            &&& still_matches(entry, Ident::spec_of(y), false)
        },
        MoveReply::Published { source, error } => error is None && is_published(req, source, s),
        MoveReply::Announced { source } => is_published(req, source, s),
        MoveReply::Unlinked { source: _, error } => error is None && is_moved(s),
    }
}

/// How far a move has come.
pub open spec fn progress(reply: MoveReply) -> nat {
    match reply {
        MoveReply::Start => 0,
        MoveReply::DstDir { .. } => 1,
        MoveReply::SrcDir(_) => 2,
        MoveReply::Source(_) => 3,
        MoveReply::Arrived { .. } => 4,
        MoveReply::Destination { .. } => 4,
        MoveReply::Renamed { .. } => 5,
        MoveReply::Copied { .. } => 6,
        MoveReply::Temporary { .. } => 7,
        MoveReply::Recorded { .. } => 8,
        MoveReply::Published { .. } => 9,
        MoveReply::Announced { .. } => 10,
        MoveReply::Unlinked { .. } => 11,
    }
}

/// A move that is taken up again ends as one that was never interrupted: it does not fail, it is
/// only ever done with the source gone and the destination there, and wherever it is cut off it can
/// be taken up again.
pub proof fn law_a_resumed_move_ends_as_a_clean_one(
    req: MoveRequest,
    reply: MoveReply,
    s: Scene,
    next: MoveReply,
    t: Scene,
)
    requires
        ends_of(req.src@, req.dst@) is Ok,
        !req.dry_run,
        stands(req, reply, s),
    ensures
        !(move_step(req, reply) is Failed),
        move_step(req, reply) matches MoveAsk::Finished(step) ==> step is Done && s.source is None
            && s.dst is Some,
        move_step(req, reply) is RemoveSourceTree ==> s.source is Some && s.dst is Some,
        answers(move_step(req, reply), s, next, t) ==> stands(req, next, t) && stands(
            MoveRequest { strict: false, published: t.record, ..req },
            MoveReply::Start,
            t,
        ),
        answers(move_step(req, reply), s, next, t) ==> progress(next) > progress(reply),
        cut_off(move_step(req, reply), s, t) ==> stands(taken_up(req, t), MoveReply::Start, t),
{
    let ask = move_step(req, reply);
    if exists|r: MoveReply| answers(ask, s, r, t) {
        let r = choose|r: MoveReply| answers(ask, s, r, t);
        assert(stands(taken_up(req, t), MoveReply::Start, t));
    }
}

} // verus!
