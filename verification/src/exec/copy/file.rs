//! What the copy of a file comes to.

use vstd::prelude::*;

use super::{
    chunk_step, dir_fault, file_step, regular_result, shows_no_dir, temp_root_of, ChunkAsk,
    ChunkReply, Contents, ContentsAct, CopyAct, CopyTree, DirReply, FileAsk, FileReply, FileRequest,
    Sought, CHUNK, MAX_DEPTH,
};
use crate::exec::{Looked, Step, Verify};
use crate::path::{joined, parent_of};

verus! {

/// A chunk that the kernel will not copy is copied by hand, all of it: what was read is written from
/// where the last write ended to the end, and it counts as moved once the last byte of it is.
pub proof fn law_what_is_read_is_written(offset: u64, len: usize, reply: ChunkReply)
    ensures
        reply is Start ==> chunk_step(offset, len, reply) == (ChunkAsk::CopyRange { offset, len }),
        reply is Refused ==> chunk_step(offset, len, reply) == (ChunkAsk::SeekSource { offset }),
        reply matches ChunkReply::SourceSought { error: None } ==> chunk_step(offset, len, reply)
            == (ChunkAsk::SeekDestination { offset }),
        reply matches ChunkReply::DestinationSought { error: None } ==> chunk_step(
            offset,
            len,
            reply,
        ) == (ChunkAsk::Read { len }),
        reply matches ChunkReply::Read { got } && got > 0 ==> chunk_step(offset, len, reply) == (
        ChunkAsk::Write { from: 0, to: reply->Read_got }),
        chunk_step(offset, len, reply) matches ChunkAsk::Write { from, to } ==> from < to,
        reply matches ChunkReply::Wrote { got, written, count } && 0 < count && written + count < got
            ==> chunk_step(offset, len, reply) == (ChunkAsk::Write {
            from: (reply->written + reply->Wrote_count) as usize,
            to: reply->Wrote_got,
        }),
        chunk_step(offset, len, reply) matches ChunkAsk::Finished { moved } ==> match reply {
            ChunkReply::Moved { count } => moved == count,
            ChunkReply::Read { got } => got == 0 && moved == 0,
            ChunkReply::Wrote { got, written, count } => count > 0 && written + count >= got
                && moved == got,
            _ => false,
        },
        chunk_step(offset, len, reply) is Failed ==> match reply {
            ChunkReply::KernelFailed(_) => true,
            ChunkReply::SourceSought { error } => error is Some,
            ChunkReply::DestinationSought { error } => error is Some,
            ChunkReply::ReadFailed(_) => true,
            ChunkReply::Wrote { count, .. } => count == 0,
            ChunkReply::WriteFailed(_) => true,
            _ => false,
        },
{
}

/// No byte of data is taken for part of a hole: every place before the hole that was found, and
/// inside the file, is in the region that is copied. Where no hole could be found all the rest is.
pub proof fn law_no_data_is_skipped(contents: Contents, found: Sought, x: u64)
    requires
        x < contents.size,
        found matches Sought::At(pos) ==> x < pos,
    ensures
        x < contents.region_end(found) <= contents.size,
{
}

/// What is known to be a hole is not copied: the region ends where the hole begins.
pub proof fn law_a_region_ends_at_the_hole(contents: Contents, pos: u64)
    requires
        pos <= contents.size,
    ensures
        contents.region_end(Sought::At(pos)) == pos,
{
}

/// A copy does not fail by itself: it fails over what could not be done, or a copy that turned out
/// not to be what the source is. It starts over only where what is there is not.
pub proof fn law_a_copy_fails_only_over_something(req: FileRequest, reply: FileReply)
    ensures
        file_step(req, reply) is Failed ==> match reply {
            FileReply::SourceOpened { error } => error is Some,
            FileReply::Created { error } => error is Some,
            FileReply::ContentsFailed(_) => true,
            FileReply::Flushed { error } => error is Some,
            FileReply::Measured { size } => size != (if req.source.size < 0 {
                0
            } else {
                req.source.size
            }),
            FileReply::MeasureFailed(_) => true,
            FileReply::Digests { source, copy } => source@ != copy@,
            FileReply::DigestFailed(_) => true,
            _ => false,
        },
        file_step(req, reply) is Clear ==> match reply {
            FileReply::Existing(Looked::Found(x)) => (x.size > 0 || req.source.size > 0) && x.size
                != req.source.size,
            FileReply::ExistingDigests { source, copy } => source@ != copy@,
            FileReply::ExistingUnread => true,
            _ => false,
        },
        file_step(req, reply) is Stopped ==> (reply matches FileReply::ContentsCopied {
            complete: false,
        }),
{
}

/// A copy goes from step to step, and none is left out: the source is opened, the destination made,
/// the contents shared or copied whole, the copy sealed and then measured, and its digest compared
/// where that is asked for. What is said to have been copied is the whole length, or nothing where it
/// was there already.
pub proof fn law_a_copy_takes_every_step(req: FileRequest, reply: FileReply)
    ensures
        file_step(req, reply) is Create ==> (reply matches FileReply::SourceOpened { error: None }),
        file_step(req, reply) is Clone ==> (reply matches FileReply::Created { error: None }),
        reply matches FileReply::Cloned { shared: false } ==> (file_step(req, reply) matches
            FileAsk::CopyContents { size } && size == (if req.source.size < 0 {
            0
        } else {
            req.source.size
        })),
        file_step(req, reply) is CopyContents ==> (reply matches FileReply::Cloned {
            shared: false,
        }),
        file_step(req, reply) is Seal ==> (reply matches FileReply::Cloned { shared: true }) || (
        reply matches FileReply::ContentsCopied { complete: true }),
        file_step(req, reply) is Measure ==> (reply matches FileReply::Flushed { error: None }),
        file_step(req, reply) matches FileAsk::Finished { copied } ==> match reply {
            FileReply::Existing(_) => copied == 0 && req.verify == Verify::Size,
            FileReply::ExistingDigests { source, copy } => copied == 0 && source@ == copy@,
            FileReply::Measured { size } => copied == size && req.verify == Verify::Size,
            FileReply::Digests { source, copy } => source@ == copy@ && copied == (
            if req.source.size < 0 {
                0
            } else {
                req.source.size
            }),
            _ => false,
        },
        // Nothing that went well is the end of it but the last step.
        reply is Start ==> file_step(req, reply) is LookExisting,
        reply matches FileReply::Existing(Looked::Gone) ==> file_step(req, reply) is OpenSource,
        reply is Cleared ==> file_step(req, reply) is OpenSource,
        reply matches FileReply::Measured { size } && size == (if req.source.size < 0 {
            0
        } else {
            req.source.size
        }) ==> if req.verify == Verify::Hash {
            file_step(req, reply) is Digest
        } else {
            file_step(req, reply) is Finished
        },
        reply matches FileReply::Existing(Looked::Found(x)) && x.size == req.source.size ==> if req.verify
            == Verify::Hash {
            file_step(req, reply) is DigestExisting
        } else {
            file_step(req, reply) is Finished
        },
        reply matches FileReply::ExistingDigests { source, copy } && source@ == copy@
            ==> file_step(req, reply) is Finished,
        reply matches FileReply::Digests { source, copy } && source@ == copy@ ==> file_step(
            req,
            reply,
        ) is Finished,
{
}

/// A file that is moved by itself is done once it is copied, and paused only where someone asked.
pub proof fn law_a_copied_file_is_done(act: FileAsk, paused: bool)
    ensures
        regular_result(act, paused) matches Some(Step::Done(n)) ==> !paused && act == (
        FileAsk::Finished { copied: n }),
        regular_result(act, paused) matches Some(Step::Paused(_)) ==> paused || act is Stopped,
        act matches FileAsk::Finished { copied } ==> regular_result(act, false) == Some(
            Step::Done(copied),
        ),
        act is Stopped ==> regular_result(act, paused) == Some(Step::Paused(0)),
{
}

/// A directory is gone into exactly where it could be opened, made and listed.
pub proof fn law_when_a_directory_is_copied(place: Seq<char>, name: Seq<u8>, reply: DirReply)
    ensures
        dir_fault(place, name, reply) is None == (reply is Names),
{
}

/// A copy is put together beside what it is to become.
pub proof fn law_where_a_copy_is_put_together(dst: Seq<u8>, temp: Seq<u8>)
    ensures
        parent_of(dst) matches Some(dir) ==> temp_root_of(dst, temp) == joined(dir, temp),
        parent_of(dst) is None ==> temp_root_of(dst, temp) == joined(seq![47u8], temp),
{
}

/// What is not there, or is no directory, has nothing in it to copy.
pub proof fn law_what_is_no_directory(look: Looked)
    ensures
        shows_no_dir(look) == match look {
            Looked::Gone => true,
            Looked::Failed(_) => false,
            Looked::Found(stat) => stat.mode & 0xf000 != 0x4000,
        },
{
    if let Looked::Found(stat) = look {
        crate::plan::law_an_entry_is_known_by_what_it_is(stat);
    }
}

/// How much is copied at a time, and how deep.
pub proof fn law_the_limits_of_a_copy()
    ensures
        CHUNK == 8 * 1024 * 1024,
        MAX_DEPTH == 512,
        crate::exec::remove::MAX_DEPTH == 512,
{
}

/// What is there of an earlier copy is kept only where it is the source: what is shorter or longer, or
/// differs, or cannot be read, is cleared away before the copy is made. Each step that goes well leads
/// to the next.
pub proof fn law_what_each_step_leads_to(req: FileRequest, reply: FileReply)
    ensures
        reply matches FileReply::Existing(Looked::Found(x)) && x.size >= 0 && req.source.size >= 0
            && x.size != req.source.size ==> file_step(req, reply) is Clear,
        reply matches FileReply::ExistingDigests { source, copy } && source@ != copy@
            ==> file_step(req, reply) is Clear,
        reply is ExistingUnread ==> file_step(req, reply) is Clear,
        reply matches FileReply::Existing(Looked::Failed(_)) ==> file_step(req, reply) is OpenSource,
        reply matches FileReply::SourceOpened { error: None } ==> file_step(req, reply) is Create,
        reply matches FileReply::Created { error: None } ==> file_step(req, reply) is Clone,
        reply matches FileReply::Cloned { shared: true } ==> file_step(req, reply) is Seal,
        reply matches FileReply::ContentsCopied { complete: true } ==> file_step(req, reply) is Seal,
        reply matches FileReply::ContentsCopied { complete: false } ==> file_step(req, reply)
            is Stopped,
        reply matches FileReply::Flushed { error: None } ==> file_step(req, reply) is Measure,
        reply matches FileReply::SourceOpened { error: Some(_) } ==> file_step(req, reply) is Failed,
        reply matches FileReply::Created { error: Some(_) } ==> file_step(req, reply) is Failed,
        reply is ContentsFailed ==> file_step(req, reply) is Failed,
        reply matches FileReply::Flushed { error: Some(_) } ==> file_step(req, reply) is Failed,
        reply is MeasureFailed ==> file_step(req, reply) is Failed,
        reply is DigestFailed ==> file_step(req, reply) is Failed,
        reply matches FileReply::Digests { source, copy } && source@ != copy@ ==> file_step(
            req,
            reply,
        ) is Failed,
{
}

/// Contents are gone through to their end, and then the copy gets the length of the source.
pub proof fn law_contents_are_gone_through(contents: Contents, act: ContentsAct)
    requires
        contents.seeks(act),
    ensures
        contents.offset < contents.size ==> act is CheckPause,
        contents.offset >= contents.size ==> act == (ContentsAct::SetLength { size: contents.size }),
{
}

/// What was dealt with stays dealt with, and what is dealt with now is what was in hand; a copy that
/// failed deals with nothing.
pub proof fn law_what_is_dealt_with(now: CopyTree, was: CopyTree, act: CopyAct)
    requires
        now.settles(was, act),
    ensures
        !(act is Failed) ==> now.settled@ == was.settled@.insert(was.in_hand()->0),
        act is Failed ==> now.settled@ == was.settled@,
        now.found@ == was.found@,
        now.told@ == was.told@,
{
}

} // verus!
