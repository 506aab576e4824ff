//! The way a move takes, told off what it finds.

use vstd::prelude::*;

use super::{
    ends_of, move_step, temp_of, MoveAsk, MoveReply, MoveRequest, Renamed,
};
use crate::exec::{Looked, Opened, Step};
use crate::path::{file_name_of, parent_of};
use crate::plan::{law_an_entry_is_known_by_what_it_is, Conflict, Ident};
use crate::stat::Stat;

verus! {

/// Whether a path names something in some directory, by a name without a zero byte.
pub open spec fn is_named(path: Seq<u8>) -> bool {
    &&& parent_of(path) is Some
    &&& file_name_of(path) matches Some(name)
    &&& forall|i: int| 0 <= i < name.len() ==> name[i] != 0
}

proof fn lemma_nul(name: Seq<u8>)
    ensures
        name.contains(0) == !forall|i: int| 0 <= i < name.len() ==> name[i] != 0,
{
    if exists|i: int| 0 <= i < name.len() && name[i] == 0 {
        let i = choose|i: int| 0 <= i < name.len() && name[i] == 0;
        assert(name.contains(name[i]));
    }
}

/// A move goes from one name to another, each in its directory, and any two paths will do that have
/// both.
pub proof fn law_where_a_move_goes(src: Seq<u8>, dst: Seq<u8>)
    ensures
        ends_of(src, dst) is Ok == (is_named(src) && is_named(dst)),
        ends_of(src, dst) matches Ok(ends) ==> {
            &&& parent_of(src) == Some(ends.src_parent)
            &&& file_name_of(src) == Some(ends.src_name)
            &&& parent_of(dst) == Some(ends.dst_parent)
            &&& file_name_of(dst) == Some(ends.dst_name)
        },
{
    if file_name_of(src) is Some {
        lemma_nul(file_name_of(src)->0);
    }
    if file_name_of(dst) is Some {
        lemma_nul(file_name_of(dst)->0);
    }
}

/// Whether two identities are of one object.
pub open spec fn is_one_object(a: Ident, b: Ident) -> bool {
    a.dev == b.dev && a.ino == b.ino && a.kind == b.kind
}

/// Whether what is at the destination is what an earlier run of the same move left on record before
/// it put it there.
pub open spec fn is_left_by_the_move(req: MoveRequest, there: Stat) -> bool {
    !req.strict && (req.published matches Some(entry) && is_one_object(entry, Ident::spec_of(there)))
}

/// What a move does about its source: what is still what was staged is moved, what is gone may have
/// arrived already, and anything else is left alone.
pub proof fn law_what_is_done_about_the_source(req: MoveRequest, look: Looked)
    requires
        is_named(req.src@),
        is_named(req.dst@),
    ensures
        ({
            let ask = move_step(req, MoveReply::Source(look));
            let name = file_name_of(req.dst@)->0;
            match look {
                Looked::Gone => ask == (MoveAsk::LookArrived { name }),
                Looked::Failed(_) => ask is Failed,
                Looked::Found(source) => if is_one_object(req.ident, Ident::spec_of(source)) && (
                req.strict ==> req.ident == Ident::spec_of(source)) {
                    ask == (MoveAsk::LookDestination { source, name })
                } else {
                    ask is Failed
                },
            }
        }),
        move_step(req, MoveReply::Arrived { found: true }) == MoveAsk::Finished(Step::Done(0)),
        move_step(req, MoveReply::Arrived { found: false }) is Failed,
{
    law_where_a_move_goes(req.src@, req.dst@);
}

/// What a move does about its destination: where there is nothing it goes there, by a rename first of
/// all; what it put there itself lets it take the source away; and what is not its own is left as it
/// is, without complaint only where that was asked for.
pub proof fn law_what_is_done_about_the_destination(req: MoveRequest, source: Stat, look: Looked)
    requires
        is_named(req.src@),
        is_named(req.dst@),
    ensures
        ({
            let ask = move_step(req, MoveReply::Destination { source, look });
            let (from, to) = (file_name_of(req.src@)->0, file_name_of(req.dst@)->0);
            match look {
                Looked::Failed(_) => ask is Failed,
                Looked::Gone => if req.dry_run {
                    ask == MoveAsk::Finished(Step::Done(req.est_bytes))
                } else {
                    ask == (MoveAsk::Rename { source, from, to })
                },
                Looked::Found(there) => if is_left_by_the_move(req, there) {
                    if req.dry_run {
                        ask == MoveAsk::Finished(Step::Done(req.est_bytes))
                    } else {
                        takes_the_source(req, source, ask)
                    }
                } else if req.on_conflict == Conflict::Skip {
                    ask == MoveAsk::Finished(Step::Done(0))
                } else {
                    ask is Failed
                },
            }
        }),
{
    law_where_a_move_goes(req.src@, req.dst@);
    law_an_entry_is_known_by_what_it_is(source);
    crate::stat::law_what_a_stat_says(source);
}

/// Whether what is asked for takes the source away: with all it holds where it is a directory.
pub open spec fn takes_the_source(req: MoveRequest, source: Stat, ask: MoveAsk) -> bool {
    let name = file_name_of(req.src@)->0;
    if source.mode & 0xf000 == 0x4000 {
        &&& ask matches MoveAsk::RemoveSourceTree { name: n, disk }
        &&& n == name
        &&& disk == source.blocks * 512 || disk == u64::MAX && source.blocks * 512 > u64::MAX
    } else {
        ask == (MoveAsk::UnlinkSource { source, name })
    }
}

/// A move that nothing goes wrong with opens both directories, the one to move into first, and looks
/// at what it is to move. If it can be renamed that is all; if not, it is copied beside its
/// destination, the finished copy is put on record and given its name, and only then the source is
/// taken away.
pub proof fn law_a_move_takes_every_step(req: MoveRequest, source: Stat, temp: Stat, n: u64)
    requires
        is_named(req.src@),
        is_named(req.dst@),
    ensures
        ({
            let (from, to) = (file_name_of(req.src@)->0, file_name_of(req.dst@)->0);
            let beside = temp_of(req.index as nat, to);
            &&& move_step(req, MoveReply::Start) == (MoveAsk::OpenDstDir {
                parent: parent_of(req.dst@)->0,
            })
            &&& move_step(req, MoveReply::DstDir { error: None }) == (MoveAsk::OpenSrcDir {
                parent: parent_of(req.src@)->0,
            })
            &&& move_step(req, MoveReply::SrcDir(Opened::Yes)) == (MoveAsk::LookSource {
                name: from,
            })
            &&& move_step(req, MoveReply::SrcDir(Opened::Gone)) == (MoveAsk::LookArrived {
                name: to,
            })
            &&& move_step(req, MoveReply::Renamed { source, how: Renamed::Yes })
                == MoveAsk::Finished(Step::Done(0))
            &&& (source.mode & 0xf000 == 0x4000 || source.mode & 0xf000 == 0x8000 || source.mode
                & 0xf000 == 0xa000) ==> move_step(
                req,
                MoveReply::Renamed { source, how: Renamed::CrossDevice },
            ) == (MoveAsk::Copy {
                source,
                kind: Ident::spec_of(source).kind,
                from,
                temp: beside,
            })
            &&& !(source.mode & 0xf000 == 0x4000 || source.mode & 0xf000 == 0x8000 || source.mode
                & 0xf000 == 0xa000) ==> move_step(
                req,
                MoveReply::Renamed { source, how: Renamed::CrossDevice },
            ) is Failed
            &&& move_step(req, MoveReply::Copied { source, result: Ok(Step::Done(n)) }) == (
            MoveAsk::LookTemporary { source, temp: beside })
            &&& move_step(req, MoveReply::Copied { source, result: Ok(Step::Paused(n)) })
                == MoveAsk::Finished(Step::Paused(0))
            &&& move_step(req, MoveReply::Temporary { source, look: Looked::Found(temp) }) == (
            MoveAsk::Record { source, entry: Ident::spec_of(temp) })
            &&& move_step(req, MoveReply::Recorded { source }) == (MoveAsk::Publish {
                source,
                temp: beside,
                name: to,
            })
            &&& move_step(req, MoveReply::Published { source, error: None }) == (MoveAsk::Announce {
                source,
            })
            &&& takes_the_source(req, source, move_step(req, MoveReply::Announced { source }))
            &&& move_step(req, MoveReply::Unlinked { source, error: None }) matches
                MoveAsk::Finished(Step::Done(disk)) && (disk == source.blocks * 512 || disk
                == u64::MAX && source.blocks * 512 > u64::MAX)
        }),
{
    law_where_a_move_goes(req.src@, req.dst@);
    law_an_entry_is_known_by_what_it_is(source);
    crate::stat::law_what_a_stat_says(source);
}

/// What goes wrong is told, and ends the move: nothing is taken away after it.
pub proof fn law_what_goes_wrong_with_a_move_is_told(req: MoveRequest, source: Stat, e: String)
    ensures
        move_step(req, MoveReply::DstDir { error: Some(e) }) is Failed,
        move_step(req, MoveReply::SrcDir(Opened::Failed(e))) is Failed,
        move_step(req, MoveReply::Renamed { source, how: Renamed::Failed(e) }) is Failed,
        move_step(req, MoveReply::Copied { source, result: Err(e) }) is Failed,
        move_step(req, MoveReply::Temporary { source, look: Looked::Gone }) is Failed,
        move_step(req, MoveReply::Temporary { source, look: Looked::Failed(e) }) is Failed,
        move_step(req, MoveReply::Published { source, error: Some(e) }) is Failed,
        move_step(req, MoveReply::Unlinked { source, error: Some(e) }) is Failed,
        !(is_named(req.src@) && is_named(req.dst@)) ==> move_step(req, MoveReply::Start) is Failed,
{
    law_where_a_move_goes(req.src@, req.dst@);
}

/// The temporary of a move lies beside its destination under a name of its own: it ends with the name
/// of the destination, and no two operations of a plan share it.
pub proof fn law_temporaries_are_apart(i: nat, j: nat, name: Seq<u8>)
    ensures
        temp_of(i, name).len() > name.len(),
        temp_of(i, name).skip(temp_of(i, name).len() - name.len()) == name,
        temp_of(i, name) == temp_of(j, name) ==> i == j,
{
    let a = ".ccdu-part-"@ + crate::text::dec(i) + "-"@;
    let b = ".ccdu-part-"@ + crate::text::dec(j) + "-"@;
    let (x, y) = (vstd::utf8::encode_utf8(a), vstd::utf8::encode_utf8(b));
    reveal_strlit("-");
    reveal_strlit(".ccdu-part-");
    assert(a.len() > 0);
    vstd::utf8::encode_utf8_decode_utf8(a);
    vstd::utf8::encode_utf8_decode_utf8(b);
    if x.len() == 0 {
        assert(x =~= Seq::<u8>::empty());
        vstd::utf8::encode_utf8_decode_utf8(Seq::<char>::empty());
        assert(vstd::utf8::encode_utf8(Seq::<char>::empty()) =~= x);
        assert(false);
    }
    assert(temp_of(i, name).skip(temp_of(i, name).len() - name.len()) =~= name);
    if temp_of(i, name) == temp_of(j, name) {
        assert(x.len() == y.len());
        assert(x =~= temp_of(i, name).take(x.len() as int));
        assert(y =~= temp_of(j, name).take(x.len() as int));
        assert(a == b);
        let (d, e) = (crate::text::dec(i), crate::text::dec(j));
        assert(d =~= a.subrange(11, a.len() - 1));
        assert(e =~= b.subrange(11, b.len() - 1));
        crate::text::lemma_dec_distinct(i, j);
    }
}

} // verus!
