//! Copying across filesystems.

use std::collections::HashMap;

use vstd::prelude::*;

use crate::digest::same_digest;
use crate::exec::names::{about, name_string, name_text};
use crate::exec::remove::{is_dot, is_dot_name};
use crate::exec::{Looked, Step, Verify};
use crate::inode::{inode_key, key_of};
use crate::path::{join, joined, parent, parent_of};
use crate::plan::{EntryKind, Ident};
use crate::stat::Stat;
use crate::text::{cat2, cat3, copy_bytes, dec, decimal, show, shown};

pub mod file;
pub mod whole;

verus! {

broadcast use vstd::std_specs::hash::group_hash_axioms;

/// How much is copied at once, and the interval at which a pause is noticed.
pub const CHUNK: usize = 8388608;

/// Deepest tree a move will descend into. Mirrors the deletion limit.
pub const MAX_DEPTH: usize = 512;

// ---------------------------------------------------------------------------------------------
// One chunk

/// What has just happened to a chunk.
#[derive(Debug)]
pub enum ChunkReply {
    Start,
    /// The kernel was asked to copy, and moved this much.
    Moved { count: usize },
    /// The kernel will not copy between these two files.
    Refused,
    KernelFailed(String),
    SourceSought { error: Option<String> },
    DestinationSought { error: Option<String> },
    /// This much was read into the buffer.
    Read { got: usize },
    ReadFailed(String),
    /// Of `got` bytes, `written` were written before, and `count` just now.
    Wrote { got: usize, written: usize, count: usize },
    WriteFailed(String),
}

/// What the copy of a chunk asks for next.
#[derive(Debug)]
pub enum ChunkAct {
    /// Have the kernel copy this range.
    CopyRange { offset: u64, len: usize },
    SeekSource { offset: u64 },
    SeekDestination { offset: u64 },
    Read { len: usize },
    /// Write the bytes of the buffer from `from` to `to`.
    Write { from: usize, to: usize },
    Finished { moved: usize },
    Failed(String),
}

pub enum ChunkAsk {
    CopyRange { offset: u64, len: usize },
    SeekSource { offset: u64 },
    SeekDestination { offset: u64 },
    Read { len: usize },
    Write { from: usize, to: usize },
    Finished { moved: usize },
    Failed(Seq<char>),
}

impl View for ChunkAct {
    type V = ChunkAsk;

    open spec fn view(&self) -> ChunkAsk {
        match self {
            ChunkAct::CopyRange { offset, len } => ChunkAsk::CopyRange {
                offset: *offset,
                len: *len,
            },
            ChunkAct::SeekSource { offset } => ChunkAsk::SeekSource { offset: *offset },
            ChunkAct::SeekDestination { offset } => ChunkAsk::SeekDestination { offset: *offset },
            ChunkAct::Read { len } => ChunkAsk::Read { len: *len },
            ChunkAct::Write { from, to } => ChunkAsk::Write { from: *from, to: *to },
            ChunkAct::Finished { moved } => ChunkAsk::Finished { moved: *moved },
            ChunkAct::Failed(e) => ChunkAsk::Failed(e@),
        }
    }
}

/// What the copy of a chunk does next.
pub open spec fn chunk_step(offset: u64, len: usize, reply: ChunkReply) -> ChunkAsk {
    match reply {
        ChunkReply::Start => ChunkAsk::CopyRange { offset, len },
        ChunkReply::Moved { count } => ChunkAsk::Finished { moved: count },
        ChunkReply::Refused => ChunkAsk::SeekSource { offset },
        ChunkReply::KernelFailed(e) => ChunkAsk::Failed("copying: "@ + e@),
        ChunkReply::SourceSought { error: Some(e) } => ChunkAsk::Failed("seeking source: "@ + e@),
        ChunkReply::SourceSought { error: None } => ChunkAsk::SeekDestination { offset },
        ChunkReply::DestinationSought { error: Some(e) } => ChunkAsk::Failed(
            "seeking destination: "@ + e@,
        ),
        ChunkReply::DestinationSought { error: None } => ChunkAsk::Read { len },
        ChunkReply::Read { got } => if got == 0 {
            ChunkAsk::Finished { moved: 0 }
        } else {
            ChunkAsk::Write { from: 0, to: got }
        },
        ChunkReply::ReadFailed(e) => ChunkAsk::Failed("reading: "@ + e@),
        ChunkReply::Wrote { got, written, count } => if count == 0 {
            ChunkAsk::Failed("destination accepted no more data"@)
        } else if written + count < got {
            ChunkAsk::Write { from: (written + count) as usize, to: got }
        } else {
            ChunkAsk::Finished { moved: got }
        },
        ChunkReply::WriteFailed(e) => ChunkAsk::Failed("writing: "@ + e@),
    }
}

/// One chunk, by whichever mechanism the kernel offers.
pub fn copy_chunk(offset: u64, len: usize, reply: &ChunkReply) -> (r: ChunkAct)
    requires
        reply matches ChunkReply::Wrote { got, written, count } ==> *written + *count <= *got,
    ensures
        r@ == chunk_step(offset, len, *reply),
{
    match reply {
        ChunkReply::Start => ChunkAct::CopyRange { offset, len },
        ChunkReply::Moved { count } => ChunkAct::Finished { moved: *count },
        ChunkReply::Refused => ChunkAct::SeekSource { offset },
        ChunkReply::KernelFailed(e) => ChunkAct::Failed(cat2("copying: ", e.as_str())),
        ChunkReply::SourceSought { error } => match error {
            Some(e) => ChunkAct::Failed(cat2("seeking source: ", e.as_str())),
            None => ChunkAct::SeekDestination { offset },
        },
        ChunkReply::DestinationSought { error } => match error {
            Some(e) => ChunkAct::Failed(cat2("seeking destination: ", e.as_str())),
            None => ChunkAct::Read { len },
        },
        ChunkReply::Read { got } => if *got == 0 {
            ChunkAct::Finished { moved: 0 }
        } else {
            ChunkAct::Write { from: 0, to: *got }
        },
        ChunkReply::ReadFailed(e) => ChunkAct::Failed(cat2("reading: ", e.as_str())),
        ChunkReply::Wrote { got, written, count } => if *count == 0 {
            ChunkAct::Failed(String::from_str("destination accepted no more data"))
        } else if *written + *count < *got {
            ChunkAct::Write { from: *written + *count, to: *got }
        } else {
            ChunkAct::Finished { moved: *got }
        },
        ChunkReply::WriteFailed(e) => ChunkAct::Failed(cat2("writing: ", e.as_str())),
    }
}

// ---------------------------------------------------------------------------------------------
// The contents of one file

/// What came of looking for data, or for a hole.
#[derive(Clone, Copy, Debug, PartialEq, Eq, Structural)]
pub enum Sought {
    At(u64),
    /// There is no data from here on.
    OnlyHoles,
    Failed,
}

/// What the copy of a file's contents is waiting for.
#[derive(Clone, Copy, Debug, PartialEq, Eq, Structural)]
pub enum ContentsWait {
    /// Whether to stop, before the next region is looked for.
    Region,
    Data,
    Hole { start: u64 },
    /// Whether to stop, before the next chunk.
    Chunk,
    Moved { want: usize },
    Length,
    Over,
}

/// What the copy of a file's contents asks for next.
#[derive(Debug)]
pub enum ContentsAct {
    CheckPause,
    /// Find data at or after this offset.
    SeekData { offset: u64 },
    /// Find a hole at or after this offset.
    SeekHole { offset: u64 },
    CopyChunk { offset: u64, len: usize },
    /// Set the destination's length: the tail of a sparse file may be a hole with no data after
    /// it, which no amount of copying would produce.
    SetLength { size: u64 },
    /// Everything is copied.
    Finished,
    /// Stopped part way. The destination is shorter than the source, so it is not mistaken for a
    /// copy that is complete.
    Stopped,
    Failed(String),
}

/// The copy of one file's contents, skipping holes so a sparse file stays sparse.
///
/// The destination only gets its full length once all the data is there: a copy that was
/// interrupted is recognised by being short.
pub struct Contents {
    pub size: u64,
    /// Everything before this has been copied or is a hole.
    pub offset: u64,
    /// Where the region of data that is being copied ends.
    pub end: u64,
    pub waiting: ContentsWait,
}

impl Contents {
    pub open spec fn wf(&self) -> bool {
        &&& self.offset <= self.size
        &&& self.end <= self.size
        &&& self.waiting is Region || self.waiting is Data || self.waiting is Hole ==> self.offset
            < self.size
        &&& self.waiting is Chunk || self.waiting is Moved ==> self.offset < self.end
        &&& self.waiting matches ContentsWait::Moved { want } ==> 0 < want <= CHUNK && want
            <= self.end - self.offset
    }

    /// What follows once everything before `offset` is settled and no region is being copied.
    pub open spec fn seeks(&self, act: ContentsAct) -> bool {
        if self.offset < self.size {
            act is CheckPause && self.waiting is Region
        } else {
            act == (ContentsAct::SetLength { size: self.size }) && self.waiting is Length
        }
    }

    pub fn begin(size: u64) -> (r: (Contents, ContentsAct))
        ensures
            r.0.wf(),
            r.0.size == size,
            r.0.offset == 0,
            r.0.seeks(r.1),
    {
        if size == 0 {
            (
                Contents { size, offset: 0, end: 0, waiting: ContentsWait::Length },
                ContentsAct::SetLength { size },
            )
        } else {
            (
                Contents { size, offset: 0, end: 0, waiting: ContentsWait::Region },
                ContentsAct::CheckPause,
            )
        }
    }

    /// Go on, unless someone has asked to stop.
    pub fn go_on(&mut self, paused: bool) -> (r: ContentsAct)
        requires
            old(self).wf(),
            old(self).waiting is Region || old(self).waiting is Chunk,
        ensures
            final(self).wf(),
            final(self).size == old(self).size,
            final(self).offset == old(self).offset,
            final(self).end == old(self).end,
            if paused {
                r is Stopped && final(self).waiting is Over && old(self).offset < old(self).size
            } else if old(self).waiting is Region {
                &&& r == (ContentsAct::SeekData { offset: old(self).offset })
                &&& final(self).waiting is Data
            } else {
                let left = old(self).end - old(self).offset;
                let want = if left < CHUNK {
                    left as usize
                } else {
                    CHUNK
                };
                &&& r == (ContentsAct::CopyChunk { offset: old(self).offset, len: want })
                &&& final(self).waiting == (ContentsWait::Moved { want })
            },
    {
        if paused {
            self.waiting = ContentsWait::Over;
            return ContentsAct::Stopped;
        }
        match self.waiting {
            ContentsWait::Region => {
                self.waiting = ContentsWait::Data;
                ContentsAct::SeekData { offset: self.offset }
            },
            _ => {
                let left: u64 = self.end - self.offset;
                let want: usize = if left < CHUNK as u64 {
                    left as usize
                } else {
                    CHUNK
                };
                self.waiting = ContentsWait::Moved { want };
                ContentsAct::CopyChunk { offset: self.offset, len: want }
            },
        }
    }

    /// Data was looked for. Filesystems without the extension report the whole file as data, which
    /// is correct if pessimistic.
    pub fn data_at(&mut self, found: Sought) -> (r: ContentsAct)
        requires
            old(self).wf(),
            old(self).waiting is Data,
        ensures
            final(self).wf(),
            final(self).size == old(self).size,
            final(self).offset == old(self).offset,
            final(self).end == old(self).end,
            match found {
                Sought::OnlyHoles => {
                    &&& r == (ContentsAct::SetLength { size: old(self).size })
                    &&& final(self).waiting is Length
                },
                Sought::At(start) => {
                    &&& r == (ContentsAct::SeekHole { offset: start })
                    &&& final(self).waiting == (ContentsWait::Hole { start })
                },
                Sought::Failed => {
                    &&& r == (ContentsAct::SeekHole { offset: old(self).offset })
                    &&& final(self).waiting == (ContentsWait::Hole { start: old(self).offset })
                },
            },
    {
        match found {
            Sought::OnlyHoles => {
                self.waiting = ContentsWait::Length;
                ContentsAct::SetLength { size: self.size }
            },
            Sought::At(start) => {
                self.waiting = ContentsWait::Hole { start };
                ContentsAct::SeekHole { offset: start }
            },
            Sought::Failed => {
                self.waiting = ContentsWait::Hole { start: self.offset };
                ContentsAct::SeekHole { offset: self.offset }
            },
        }
    }

    /// Where the region of data from `start` on ends.
    pub open spec fn region_end(&self, found: Sought) -> u64 {
        match found {
            Sought::At(pos) => if pos < self.size {
                pos
            } else {
                self.size
            },
            _ => self.size,
        }
    }

    /// The end of the data was looked for.
    pub fn hole_at(&mut self, found: Sought) -> (r: ContentsAct)
        requires
            old(self).wf(),
            old(self).waiting is Hole,
        ensures
            final(self).wf(),
            final(self).size == old(self).size,
            ({
                let start = old(self).waiting->Hole_start;
                let end = old(self).region_end(found);
                if start < end {
                    &&& r is CheckPause
                    &&& final(self).waiting is Chunk
                    &&& final(self).offset == start
                    &&& final(self).end == end
                } else {
                    &&& r == (ContentsAct::SetLength { size: old(self).size })
                    &&& final(self).waiting is Length
                    &&& final(self).offset == old(self).offset
                    &&& final(self).end == old(self).end
                }
            }),
    {
        let end: u64 = match found {
            Sought::At(pos) => if pos < self.size {
                pos
            } else {
                self.size
            },
            _ => self.size,
        };
        match self.waiting {
            ContentsWait::Hole { start } => if start < end {
                self.offset = start;
                self.end = end;
                self.waiting = ContentsWait::Chunk;
                ContentsAct::CheckPause
            } else {
                self.waiting = ContentsWait::Length;
                ContentsAct::SetLength { size: self.size }
            },
            _ => ContentsAct::Stopped,
        }
    }

    /// A chunk was copied: this much of it.
    pub fn moved(&mut self, count: usize) -> (r: ContentsAct)
        requires
            old(self).wf(),
            old(self).waiting is Moved,
            count <= old(self).waiting->Moved_want,
        ensures
            final(self).wf(),
            final(self).size == old(self).size,
            final(self).end == old(self).end,
            if count == 0 {
                &&& r matches ContentsAct::Failed(e) && e@
                    == "source ended earlier than its size claimed"@
                &&& final(self).waiting is Over
                &&& final(self).offset == old(self).offset
            } else {
                &&& final(self).offset == old(self).offset + count
                &&& if final(self).offset < final(self).end {
                    r is CheckPause && final(self).waiting is Chunk
                } else {
                    final(self).seeks(r)
                }
            },
    {
        if count == 0 {
            self.waiting = ContentsWait::Over;
            return ContentsAct::Failed(
                String::from_str("source ended earlier than its size claimed"),
            );
        }
        self.offset = self.offset + count as u64;
        if self.offset < self.end {
            self.waiting = ContentsWait::Chunk;
            ContentsAct::CheckPause
        } else if self.offset < self.size {
            self.waiting = ContentsWait::Region;
            ContentsAct::CheckPause
        } else {
            self.waiting = ContentsWait::Length;
            ContentsAct::SetLength { size: self.size }
        }
    }

    /// The destination was given its length.
    pub fn sized(&mut self, error: &Option<String>) -> (r: ContentsAct)
        requires
            old(self).wf(),
            old(self).waiting is Length,
        ensures
            final(self).wf(),
            final(self).waiting is Over,
            final(self).size == old(self).size,
            match error {
                Some(e) => r matches ContentsAct::Failed(text) && text@ == "sizing destination: "@
                    + e@,
                None => r is Finished,
            },
    {
        self.waiting = ContentsWait::Over;
        match error {
            Some(e) => ContentsAct::Failed(cat2("sizing destination: ", e.as_str())),
            None => ContentsAct::Finished,
        }
    }
}

// ---------------------------------------------------------------------------------------------
// One file

/// A regular file to copy.
#[derive(Clone, Debug)]
pub struct FileRequest {
    pub src_name: Vec<u8>,
    pub dst_name: Vec<u8>,
    pub source: Stat,
    pub verify: Verify,
}

/// What has just happened to the copy of a file.
#[derive(Debug)]
pub enum FileReply {
    Start,
    /// What is at the destination already, if anything.
    Existing(Looked),
    /// The digests of both sides, the destination having been there before.
    ExistingDigests { source: [u8; 32], copy: [u8; 32] },
    /// One of the two sides could not be read.
    ExistingUnread,
    /// What was there has been removed, or could not be.
    Cleared,
    SourceOpened { error: Option<String> },
    Created { error: Option<String> },
    /// The filesystem was asked to share the data.
    Cloned { shared: bool },
    /// The contents were copied, or the copy stopped part way.
    ContentsCopied { complete: bool },
    ContentsFailed(String),
    /// Mode, owner and times were set as far as they could be, and the file flushed.
    Flushed { error: Option<String> },
    /// How long the copy is.
    Measured { size: u64 },
    MeasureFailed(String),
    /// The digests of both sides.
    Digests { source: [u8; 32], copy: [u8; 32] },
    DigestFailed(String),
}

/// What the copy of a file asks for next.
#[derive(Debug)]
pub enum FileAct {
    LookExisting,
    /// Read the source and what is at the destination, and take the digests of both.
    DigestExisting,
    /// Remove a torn copy. Whether that works shows when the file is created.
    Clear,
    OpenSource,
    /// Create the destination, open for reading too: a check that cannot open what it is checking
    /// is not a check.
    Create,
    /// Share the data instead of duplicating it, where the filesystem supports it.
    Clone,
    CopyContents { size: u64 },
    /// Set mode, owner and times, then flush.
    Seal,
    Measure,
    Digest,
    /// Done, having copied this much.
    Finished { copied: u64 },
    /// Stopped part way, leaving a short file that will be started again.
    Stopped,
    Failed(String),
}

pub enum FileAsk {
    LookExisting,
    DigestExisting,
    Clear,
    OpenSource,
    Create,
    Clone,
    CopyContents { size: u64 },
    Seal,
    Measure,
    Digest,
    Finished { copied: u64 },
    Stopped,
    Failed(Seq<char>),
}

impl View for FileAct {
    type V = FileAsk;

    open spec fn view(&self) -> FileAsk {
        match self {
            FileAct::LookExisting => FileAsk::LookExisting,
            FileAct::DigestExisting => FileAsk::DigestExisting,
            FileAct::Clear => FileAsk::Clear,
            FileAct::OpenSource => FileAsk::OpenSource,
            FileAct::Create => FileAsk::Create,
            FileAct::Clone => FileAsk::Clone,
            FileAct::CopyContents { size } => FileAsk::CopyContents { size: *size },
            FileAct::Seal => FileAsk::Seal,
            FileAct::Measure => FileAsk::Measure,
            FileAct::Digest => FileAsk::Digest,
            FileAct::Finished { copied } => FileAsk::Finished { copied: *copied },
            FileAct::Stopped => FileAsk::Stopped,
            FileAct::Failed(e) => FileAsk::Failed(e@),
        }
    }
}

/// What follows once the length of the copy is known: it must be the source's, and where hashes
/// are asked for they must agree too.
pub open spec fn after_measure(req: FileRequest, written: u64) -> FileAsk {
    let size = req.source.spec_size();
    if written != size {
        FileAsk::Failed(
            name_text(req.dst_name@) + " copied as "@ + dec(written as nat)
                + " bytes but the source is "@ + dec(size as nat),
        )
    } else if req.verify == Verify::Hash {
        FileAsk::Digest
    } else {
        FileAsk::Finished { copied: size }
    }
}

/// What the copy of a file does next.
pub open spec fn file_step(req: FileRequest, reply: FileReply) -> FileAsk {
    let size = req.source.spec_size();
    match reply {
        FileReply::Start => FileAsk::LookExisting,
        // A file already sitting there at the right length is one an earlier attempt finished,
        // unless lengths are not to be relied on. A short one is a torn copy: start it again
        // rather than guess where it stopped.
        FileReply::Existing(Looked::Found(existing)) => if existing.spec_size() != size {
            FileAsk::Clear
        } else if req.verify == Verify::Hash {
            FileAsk::DigestExisting
        } else {
            FileAsk::Finished { copied: 0 }
        },
        FileReply::ExistingDigests { source, copy } => if source@ == copy@ {
            FileAsk::Finished { copied: 0 }
        } else {
            FileAsk::Clear
        },
        FileReply::ExistingUnread => FileAsk::Clear,
        FileReply::Existing(_) => FileAsk::OpenSource,
        FileReply::Cleared => FileAsk::OpenSource,
        FileReply::SourceOpened { error: Some(e) } => FileAsk::Failed(
            "opening "@ + name_text(req.src_name@) + ": "@ + e@,
        ),
        FileReply::SourceOpened { error: None } => FileAsk::Create,
        FileReply::Created { error: Some(e) } => FileAsk::Failed(
            "creating "@ + name_text(req.dst_name@) + ": "@ + e@,
        ),
        FileReply::Created { error: None } => FileAsk::Clone,
        FileReply::Cloned { shared } => if shared {
            FileAsk::Seal
        } else {
            FileAsk::CopyContents { size }
        },
        FileReply::ContentsCopied { complete } => if complete {
            FileAsk::Seal
        } else {
            FileAsk::Stopped
        },
        FileReply::ContentsFailed(e) => FileAsk::Failed(e@),
        FileReply::Flushed { error: Some(e) } => FileAsk::Failed(
            "flushing "@ + name_text(req.dst_name@) + ": "@ + e@,
        ),
        FileReply::Flushed { error: None } => FileAsk::Measure,
        FileReply::Measured { size: written } => after_measure(req, written),
        FileReply::MeasureFailed(e) => FileAsk::Failed("stat: "@ + e@),
        FileReply::Digests { source, copy } => if source@ == copy@ {
            FileAsk::Finished { copied: size }
        } else {
            FileAsk::Failed(name_text(req.dst_name@) + " does not match the source"@)
        },
        FileReply::DigestFailed(e) => FileAsk::Failed(e@),
    }
}

/// Copy one regular file, preserving holes, permissions and timestamps: given what has just
/// happened, what to do next.
pub fn copy_file(req: &FileRequest, reply: &FileReply) -> (r: FileAct)
    ensures
        r@ == file_step(*req, *reply),
{
    let size: u64 = req.source.byte_size();
    let src_name = req.src_name.as_slice();
    let dst_name = req.dst_name.as_slice();
    match reply {
        FileReply::Start => FileAct::LookExisting,
        FileReply::Existing(look) => match look {
            Looked::Found(existing) => if existing.byte_size() != size {
                FileAct::Clear
            } else if req.verify == Verify::Hash {
                FileAct::DigestExisting
            } else {
                FileAct::Finished { copied: 0 }
            },
            _ => FileAct::OpenSource,
        },
        FileReply::ExistingDigests { source, copy } => if same_digest(source, copy) {
            FileAct::Finished { copied: 0 }
        } else {
            FileAct::Clear
        },
        FileReply::ExistingUnread => FileAct::Clear,
        FileReply::Cleared => FileAct::OpenSource,
        FileReply::SourceOpened { error } => match error {
            Some(e) => FileAct::Failed(about("opening ", src_name, e.as_str())),
            None => FileAct::Create,
        },
        FileReply::Created { error } => match error {
            Some(e) => FileAct::Failed(about("creating ", dst_name, e.as_str())),
            None => FileAct::Clone,
        },
        FileReply::Cloned { shared } => if *shared {
            FileAct::Seal
        } else {
            FileAct::CopyContents { size }
        },
        FileReply::ContentsCopied { complete } => if *complete {
            FileAct::Seal
        } else {
            FileAct::Stopped
        },
        FileReply::ContentsFailed(e) => FileAct::Failed(e.clone()),
        FileReply::Flushed { error } => match error {
            Some(e) => FileAct::Failed(about("flushing ", dst_name, e.as_str())),
            None => FileAct::Measure,
        },
        FileReply::Measured { size: written } => verify(req, *written),
        FileReply::MeasureFailed(e) => FileAct::Failed(cat2("stat: ", e.as_str())),
        FileReply::Digests { source, copy } => if same_digest(source, copy) {
            FileAct::Finished { copied: size }
        } else {
            let q = name_string(dst_name);
            FileAct::Failed(cat2(q.as_str(), " does not match the source"))
        },
        FileReply::DigestFailed(e) => FileAct::Failed(e.clone()),
    }
}

/// Confirm the copy is what the source is, before the source stops existing.
fn verify(req: &FileRequest, written: u64) -> (r: FileAct)
    ensures
        r@ == after_measure(*req, written),
{
    let size: u64 = req.source.byte_size();
    if written != size {
        let q = name_string(req.dst_name.as_slice());
        let mut text = cat2(q.as_str(), " copied as ");
        let w = decimal(written);
        text.append(w.as_str());
        text.append(" bytes but the source is ");
        let s = decimal(size);
        text.append(s.as_str());
        FileAct::Failed(text)
    } else if req.verify == Verify::Hash {
        FileAct::Digest
    } else {
        FileAct::Finished { copied: size }
    }
}

/// A file only counts as copied once the copy has the source's length, and once the digests agree
/// where they are asked for, whether this run made the copy or found it.
pub proof fn law_copies_are_checked(req: FileRequest, reply: FileReply)
    ensures
        file_step(req, reply) is Finished ==> {
            ||| (reply matches FileReply::Existing(Looked::Found(existing)) && existing.spec_size()
                == req.source.spec_size() && req.verify == Verify::Size)
            ||| (reply matches FileReply::ExistingDigests { source, copy } && source@ == copy@)
            ||| (reply matches FileReply::Measured { size } && size == req.source.spec_size()
                && req.verify == Verify::Size)
            ||| (reply matches FileReply::Digests { source, copy } && source@ == copy@)
        },
        file_step(req, reply) is DigestExisting ==> (reply matches FileReply::Existing(
            Looked::Found(existing),
        ) && existing.spec_size() == req.source.spec_size()),
        file_step(req, reply) is Digest ==> (reply matches FileReply::Measured { size } && size
            == req.source.spec_size()),
{
}

// ---------------------------------------------------------------------------------------------
// A tree

/// What came of opening a directory, making its counterpart, and listing it.
#[derive(Debug)]
pub enum DirReply {
    OpenFailed(String),
    MakeFailed(String),
    /// The counterpart is there, and could not be opened.
    ReopenFailed(String),
    ListFailed(String),
    Names(Vec<Vec<u8>>),
}

/// The names in a listing, but for `.` and `..`.
pub open spec fn real_names(names: Seq<Vec<u8>>) -> Seq<Seq<u8>>
    decreases names.len(),
{
    if names.len() == 0 {
        Seq::empty()
    } else if is_dot_name(names.last()@) {
        real_names(names.drop_last())
    } else {
        real_names(names.drop_last()).push(names.last()@)
    }
}

/// Whether every name of a listing is among some others, but for the directory itself and the one
/// around it, and nothing else is.
pub open spec fn takes_in(listed: Seq<Vec<u8>>, taken: Seq<Vec<u8>>) -> bool {
    &&& forall|i: int|
        0 <= i < listed.len() ==> (#[trigger] listed[i])@ == seq![46u8] || listed[i]@ == seq![
            46u8,
            46u8,
        ] || views(taken).contains(listed[i]@)
    &&& forall|j: int|
        0 <= j < taken.len() ==> (#[trigger] taken[j])@ != seq![46u8] && taken[j]@ != seq![
            46u8,
            46u8,
        ] && views(listed).contains(taken[j]@)
}

/// The names that are taken out of a listing are all of it but `.` and `..`, whatever they begin
/// with.
pub proof fn law_every_listed_name_is_taken(names: Seq<Vec<u8>>)
    ensures
        forall|i: int|
            0 <= i < names.len() && (#[trigger] names[i])@ != seq![46u8] && names[i]@ != seq![
                46u8,
                46u8,
            ] ==> real_names(names).contains(names[i]@),
        forall|n: Seq<u8>| #[trigger]
            real_names(names).contains(n) ==> n != seq![46u8] && n != seq![46u8, 46u8] && views(
                names,
            ).contains(n),
        real_names(names).len() <= names.len(),
        views(names).no_duplicates() ==> real_names(names).no_duplicates(),
    decreases names.len(),
{
    if names.len() > 0 {
        let rest = names.drop_last();
        let last = names.last()@;
        law_every_listed_name_is_taken(rest);
        let all = real_names(names);
        let some = real_names(rest);
        assert forall|i: int|
            0 <= i < names.len() && (#[trigger] names[i])@ != seq![46u8] && names[i]@ != seq![
                46u8,
                46u8,
            ] implies all.contains(names[i]@) by {
            if i < rest.len() {
                assert(rest[i] == names[i]);
                let k = choose|k: int| 0 <= k < some.len() && some[k] == names[i]@;
                assert(all[k] == some[k]);
            } else {
                assert(all[all.len() - 1] == last);
            }
        }
        assert forall|n: Seq<u8>| #[trigger] all.contains(n) implies n != seq![46u8] && n != seq![
            46u8,
            46u8,
        ] && views(names).contains(n) by {
            let k = choose|k: int| 0 <= k < all.len() && all[k] == n;
            if k < some.len() {
                assert(some.contains(some[k]));
                let j = choose|j: int| 0 <= j < views(rest).len() && views(rest)[j] == n;
                assert(views(names)[j] == n);
            } else {
                assert(views(names)[names.len() - 1] == n);
            }
        }
        if views(names).no_duplicates() {
            assert forall|i: int, j: int|
                0 <= i < rest.len() && 0 <= j < rest.len() && i != j implies views(rest)[i]
                != views(rest)[j] by {
                assert(views(names)[i] != views(names)[j]);
            }
            assert(some.no_duplicates());
            if some.contains(last) {
                let j = choose|j: int| 0 <= j < views(rest).len() && views(rest)[j] == last;
                assert(views(names)[j] == views(names)[names.len() - 1]);
            }
            assert forall|i: int, j: int|
                0 <= i < all.len() && 0 <= j < all.len() && i != j implies all[i] != all[j] by {
                if i < some.len() && j < some.len() {
                    assert(some[i] != some[j]);
                } else if i < some.len() {
                    assert(some.contains(some[i]));
                } else if j < some.len() {
                    assert(some.contains(some[j]));
                }
            }
        }
    }
}

/// What is taken out of a listing takes it in.
proof fn lemma_takes_in(listed: Seq<Vec<u8>>, taken: Seq<Vec<u8>>)
    requires
        views(taken) == real_names(listed),
    ensures
        takes_in(listed, taken),
{
    law_every_listed_name_is_taken(listed);
    assert forall|j: int| 0 <= j < taken.len() implies (#[trigger] taken[j])@ != seq![46u8]
        && taken[j]@ != seq![46u8, 46u8] && views(listed).contains(taken[j]@) by {
        assert(views(taken)[j] == taken[j]@);
        assert(real_names(listed).contains(taken[j]@));
    }
}

pub open spec fn views(names: Seq<Vec<u8>>) -> Seq<Seq<u8>> {
    names.map_values(|n: Vec<u8>| n@)
}

fn list(names: &Vec<Vec<u8>>) -> (r: Vec<Vec<u8>>)
    ensures
        views(r@) == real_names(names@),
        takes_in(names@, r@),
{
    let mut out: Vec<Vec<u8>> = Vec::new();
    let mut i: usize = 0;
    proof {
        assert(names@.take(0) =~= Seq::<Vec<u8>>::empty());
        assert(views(out@) =~= real_names(names@.take(0)));
    }
    while i < names.len()
        invariant
            i <= names@.len(),
            views(out@) == real_names(names@.take(i as int)),
        decreases names.len() - i,
    {
        proof {
            assert(names@.take(i + 1).drop_last() =~= names@.take(i as int));
        }
        if !is_dot(names[i].as_slice()) {
            let ghost before = out@;
            let copy = copy_bytes(names[i].as_slice());
            out.push(copy);
            proof {
                assert(views(out@) =~= views(before).push(copy@));
            }
        }
        i += 1;
    }
    proof {
        assert(names@.take(i as int) =~= names@);
        lemma_takes_in(names@, out@);
    }
    out
}

/// Why a directory cannot be copied, if it cannot. `place` is how its source is spoken of.
pub open spec fn dir_fault(place: Seq<char>, name: Seq<u8>, reply: DirReply) -> Option<Seq<char>> {
    match reply {
        DirReply::OpenFailed(e) => Some("opening "@ + place + ": "@ + e@),
        DirReply::MakeFailed(e) => Some("creating "@ + name_text(name) + ": "@ + e@),
        DirReply::ReopenFailed(e) => Some("opening "@ + name_text(name) + ": "@ + e@),
        DirReply::ListFailed(e) => Some("reading: "@ + e@),
        DirReply::Names(_) => None,
    }
}

fn read_names(place: &str, name: &[u8], reply: &DirReply) -> (r: Result<Vec<Vec<u8>>, String>)
    ensures
        match r {
            Ok(names) => reply matches DirReply::Names(all) && views(names@) == real_names(all@)
                && takes_in(all@, names@),
            Err(e) => dir_fault(place@, name@, *reply) == Some(e@),
        },
{
    match reply {
        DirReply::OpenFailed(e) => {
            let mut text = cat3("opening ", place, ": ");
            text.append(e.as_str());
            Err(text)
        },
        DirReply::MakeFailed(e) => Err(about("creating ", name, e.as_str())),
        DirReply::ReopenFailed(e) => Err(about("opening ", name, e.as_str())),
        DirReply::ListFailed(e) => Err(cat2("reading: ", e.as_str())),
        DirReply::Names(names) => Ok(list(names)),
    }
}

/// A directory whose entries are being copied.
#[derive(Debug)]
pub struct CopyFrame {
    /// Absolute path of this directory in the temporary tree, for hardlink targets.
    pub dst_path: Vec<u8>,
    /// What the directory that is copied was found to be.
    pub source: Stat,
    pub children: Vec<Vec<u8>>,
    pub pos: usize,
}

/// What the copy of a tree is waiting for.
#[derive(Debug)]
pub enum CopyWait {
    Root,
    Go,
    Seal { path: Vec<u8> },
    Look { name: Vec<u8> },
    Dir { name: Vec<u8>, source: Stat },
    Symlink { name: Vec<u8> },
    /// Another name for a copy is being made, after what was there was `cleared`, or before.
    Link { first: Vec<u8>, name: Vec<u8>, cleared: bool },
    /// The name to be linked is being cleared.
    Clear { first: Vec<u8>, name: Vec<u8> },
    File { name: Vec<u8> },
    Fifo { name: Vec<u8> },
    Over,
}

/// What the copy of a tree asks for next. Names are relative to the innermost directories that are
/// open, on both sides.
#[derive(Debug)]
pub enum CopyAct {
    /// Open the source directory, make the temporary beside the destination, and list the source.
    OpenRoot,
    CheckPause,
    /// Give the innermost directory the mode of `source`, and the owner and the times its own
    /// source has, then close both. This comes last: creating entries inside a directory takes
    /// permission and moves its mtime.
    SealDir { source: Stat },
    Look { name: Vec<u8> },
    /// Open this directory, make its counterpart, and list it.
    OpenDir { name: Vec<u8>, source: Stat },
    CopySymlink { name: Vec<u8> },
    /// Make another name for a file that was copied before.
    LinkTo { first: Vec<u8>, name: Vec<u8> },
    /// Remove what an earlier attempt left under a name that is to be linked. Whether that works
    /// shows when the link is made.
    Clear { name: Vec<u8> },
    CopyFile { name: Vec<u8>, source: Stat },
    MakeFifo { name: Vec<u8>, source: Stat },
    /// The point at which part of a tree is copied and nothing published.
    Announce,
    Finished(Step),
    Failed(String),
}

/// What came of making a link, or a named pipe.
#[derive(Debug)]
pub enum Linked {
    Yes,
    /// One was left there by an earlier attempt.
    AlreadyThere,
    /// The link to copy could not be read.
    Unreadable(String),
    Failed(String),
}

pub open spec fn special_text(name: Seq<u8>) -> Seq<char> {
    name_text(name) + " is a special file; ccdu will not pretend to have copied it"@
}

/// The copy of a whole directory tree into a temporary.
pub struct CopyTree {
    pub src: Vec<u8>,
    pub source: Stat,
    pub temp: Vec<u8>,
    pub temp_root: Vec<u8>,
    pub stack: Vec<CopyFrame>,
    /// Where the first copy of each file with more than one link is.
    pub links: HashMap<u128, Vec<u8>>,
    pub copied: u64,
    pub announced: bool,
    pub waiting: CopyWait,
    /// The tree and every entry that was listed in it, by where the copy goes.
    pub found: Ghost<Set<Seq<u8>>>,
    /// Every one of them that has been copied, linked or made anew, or had vanished by its turn.
    pub settled: Ghost<Set<Seq<u8>>>,
    /// Those that are directories with all that is in them, sealed.
    pub finished: Ghost<Set<Seq<u8>>>,
    /// Those that were found to be no directory, or gone.
    pub plain: Ghost<Set<Seq<u8>>>,
    /// The names that each directory was said to hold, by where its copy goes.
    pub told: Ghost<Map<Seq<u8>, Set<Seq<u8>>>>,
    /// What was copied of each file that was, and which inode that is where it has more links than
    /// one.
    pub copies: Ghost<Seq<(Option<u128>, u64)>>,
    /// That inode of the file being copied.
    pub turn: Ghost<Option<u128>>,
}

/// What some files come to together.
pub open spec fn size_of(copies: Seq<(Option<u128>, u64)>) -> nat
    decreases copies.len(),
{
    if copies.len() == 0 {
        0
    } else {
        size_of(copies.drop_last()) + copies.last().1 as nat
    }
}

/// Whether an inode with more links than one is among some files.
pub open spec fn is_among(copies: Seq<(Option<u128>, u64)>, key: u128) -> bool {
    exists|i: int| 0 <= i < copies.len() && (#[trigger] copies[i]).0 == Some(key)
}

/// Whether no inode with more links than one is among some files twice.
pub open spec fn each_once(copies: Seq<(Option<u128>, u64)>) -> bool {
    forall|i: int, j: int|
        0 <= i < j < copies.len() && (#[trigger] copies[i]).0 is Some ==> copies[i].0 != (
        #[trigger] copies[j]).0
}

/// The names that a directory was said to hold: none where it was never opened.
pub open spec fn names_told(told: Map<Seq<u8>, Set<Seq<u8>>>, p: Seq<u8>) -> Set<Seq<u8>> {
    if told.contains_key(p) {
        told[p]
    } else {
        Set::empty()
    }
}

/// What is known once the directory whose copy goes to `p` was listed.
pub open spec fn told_more(
    told: Map<Seq<u8>, Set<Seq<u8>>>,
    p: Seq<u8>,
    names: Seq<Seq<u8>>,
) -> Map<Seq<u8>, Set<Seq<u8>>> {
    told.insert(p, names_told(told, p).union(names.to_set()))
}

/// Whether a look showed that there is no directory.
pub open spec fn shows_no_dir(look: Looked) -> bool {
    match look {
        Looked::Gone => true,
        Looked::Failed(_) => false,
        Looked::Found(stat) => Ident::spec_of(stat).kind != EntryKind::Dir,
    }
}

/// Where the entries of a directory go.
pub open spec fn places_in(dir: Seq<u8>, names: Seq<Seq<u8>>) -> Set<Seq<u8>> {
    Set::new(|p: Seq<u8>| exists|j: int| 0 <= j < names.len() && p == joined(dir, #[trigger] names[j]))
}

/// Where the temporary tree stands, as a path.
pub open spec fn temp_root_of(dst: Seq<u8>, temp: Seq<u8>) -> Seq<u8> {
    let base = match parent_of(dst) {
        Some(p) => p,
        None => seq![47u8],
    };
    joined(base, temp)
}

impl CopyTree {
    pub open spec fn wf(&self) -> bool {
        &&& self.stack@.len() <= MAX_DEPTH
        &&& forall|i: int|
            0 <= i < self.stack@.len() ==> (#[trigger] self.stack@[i]).pos
                <= self.stack@[i].children@.len()
        &&& !(self.waiting is Root) && !(self.waiting is Seal) && !(self.waiting is Over)
            ==> self.stack@.len() > 0
        &&& self.waiting is Root ==> self.stack@.len() == 0
        &&& self.is_traced()
        &&& self.is_counted()
        // Nothing that was found is lost sight of.
        &&& !(self.waiting is Over) ==> forall|p: Seq<u8>| #[trigger]
            self.found@.contains(p) ==> self.settled@.contains(p) || self.awaits(p)
    }

    /// Whether what was copied is what each file comes to, an inode counting once however many
    /// links it has.
    pub open spec fn is_counted(&self) -> bool {
        &&& self.copied == size_of(self.copies@)
        &&& each_once(self.copies@)
        &&& forall|key: u128| #[trigger] is_among(self.copies@, key) ==> self.links@.contains_key(key)
        &&& self.waiting is File ==> (self.turn@ matches Some(key) ==> self.links@.contains_key(key)
            && !is_among(self.copies@, key))
    }

    /// Whether everything that is dealt with was dealt with as what it is, a directory only after
    /// it was listed.
    pub open spec fn is_traced(&self) -> bool {
        &&& self.found@.contains(self.temp_root@)
        &&& forall|p: Seq<u8>, n: Seq<u8>| #[trigger]
            names_told(self.told@, p).contains(n) ==> self.found@.contains(joined(p, n))
        &&& forall|p: Seq<u8>| #[trigger]
            self.finished@.contains(p) ==> self.told@.contains_key(p)
        &&& forall|p: Seq<u8>| #[trigger]
            self.settled@.contains(p) ==> self.finished@.contains(p) || self.plain@.contains(p)
        &&& forall|i: int|
            0 <= i < self.stack@.len() ==> self.told@.contains_key(
                (#[trigger] self.stack@[i]).dst_path@,
            )
        &&& match self.waiting {
            CopyWait::Seal { path } => self.told@.contains_key(path@),
            CopyWait::Symlink { .. } => self.plain@.contains(self.in_hand()->0),
            CopyWait::Link { .. } => self.plain@.contains(self.in_hand()->0),
            CopyWait::Clear { .. } => self.plain@.contains(self.in_hand()->0),
            CopyWait::File { .. } => self.plain@.contains(self.in_hand()->0),
            CopyWait::Fifo { .. } => self.plain@.contains(self.in_hand()->0),
            _ => true,
        }
    }

    /// Whether the directory whose copy goes to `p` is being copied.
    pub open spec fn is_open(&self, i: int, p: Seq<u8>) -> bool {
        0 <= i < self.stack@.len() && p == self.stack@[i].dst_path@
    }

    /// Whether the entry whose copy goes to `p` has yet to have its turn.
    pub open spec fn is_due(&self, i: int, j: int, p: Seq<u8>) -> bool {
        &&& 0 <= i < self.stack@.len()
        &&& self.stack@[i].pos <= j < self.stack@[i].children@.len()
        &&& p == joined(self.stack@[i].dst_path@, self.stack@[i].children@[j]@)
    }

    /// Where the copy of the entry goes whose turn it is.
    pub open spec fn in_hand(&self) -> Option<Seq<u8>> {
        match self.waiting {
            CopyWait::Seal { path } => Some(path@),
            CopyWait::Look { name } => Some(joined(self.top().dst_path@, name@)),
            CopyWait::Dir { name, .. } => Some(joined(self.top().dst_path@, name@)),
            CopyWait::Symlink { name } => Some(joined(self.top().dst_path@, name@)),
            CopyWait::Link { name, .. } => Some(joined(self.top().dst_path@, name@)),
            CopyWait::Clear { name, .. } => Some(joined(self.top().dst_path@, name@)),
            CopyWait::File { name } => Some(joined(self.top().dst_path@, name@)),
            CopyWait::Fifo { name } => Some(joined(self.top().dst_path@, name@)),
            _ => None,
        }
    }

    /// Whether the copy that goes to `p` is not finished yet.
    pub open spec fn awaits(&self, p: Seq<u8>) -> bool {
        ||| self.waiting is Root && p == self.temp_root@
        ||| exists|i: int| #[trigger] self.is_open(i, p)
        ||| exists|i: int, j: int| #[trigger] self.is_due(i, j, p)
        ||| self.in_hand() == Some(p)
    }

    /// Whether everything that was found has been dealt with.
    pub open spec fn all_settled(&self) -> bool {
        forall|p: Seq<u8>| #[trigger] self.found@.contains(p) ==> self.settled@.contains(p)
    }

    /// The entry whose turn it was is dealt with, unless the copy failed over it.
    pub open spec fn settles(&self, before: CopyTree, act: CopyAct) -> bool {
        &&& self.found == before.found
        &&& self.settled@ == (if act is Failed {
            before.settled@
        } else {
            before.settled@.insert(before.in_hand()->0)
        })
        &&& self.finished@ == (if act is Failed || !(before.waiting is Seal) {
            before.finished@
        } else {
            before.finished@.insert(before.in_hand()->0)
        })
        &&& self.plain == before.plain
        &&& self.told == before.told
    }

    /// Nothing was found, and nothing dealt with.
    pub open spec fn same_count(&self, before: CopyTree) -> bool {
        &&& self.found == before.found
        &&& self.settled == before.settled
        &&& self.finished == before.finished
        &&& self.plain == before.plain
        &&& self.told == before.told
    }

    /// Another file was copied.
    proof fn lemma_one_more(self, before: CopyTree, n: u64)
        requires
            before.is_counted(),
            before.waiting is File,
            !(self.waiting is File),
            self.links == before.links,
            self.copied == before.copied + n,
            self.copies@ == before.copies@.push((before.turn@, n)),
        ensures
            self.is_counted(),
    {
        let was = before.copies@;
        assert(self.copies@.drop_last() =~= was);
        assert forall|i: int, j: int|
            0 <= i < j < self.copies@.len() && (#[trigger] self.copies@[i]).0 is Some implies
            self.copies@[i].0 != (#[trigger] self.copies@[j]).0 by {
            if j == was.len() && before.turn@ == self.copies@[i].0 {
                assert(was[i].0 == before.turn@);
                assert(is_among(was, before.turn@->0));
            }
        }
        assert forall|key: u128| #[trigger] is_among(self.copies@, key) implies
            self.links@.contains_key(key) by {
            let i = choose|i: int|
                0 <= i < self.copies@.len() && (#[trigger] self.copies@[i]).0 == Some(key);
            if i < was.len() {
                assert(was[i].0 == Some(key));
                assert(is_among(was, key));
            }
        }
    }

    /// With the directories as they were, only what was in hand can have been dealt with.
    proof fn lemma_same_dirs(self, before: CopyTree)
        requires
            self.stack == before.stack,
            !(before.waiting is Root),
        ensures
            forall|p: Seq<u8>| #[trigger]
                before.awaits(p) && before.in_hand() != Some(p) ==> self.awaits(p),
    {
        assert forall|p: Seq<u8>| #[trigger] before.awaits(p) && before.in_hand() != Some(
            p,
        ) implies self.awaits(p) by {
            if exists|i: int| #[trigger] before.is_open(i, p) {
                let i = choose|i: int| #[trigger] before.is_open(i, p);
                assert(self.is_open(i, p));
            } else {
                let (i, j) = choose|i: int, j: int| #[trigger] before.is_due(i, j, p);
                assert(self.is_due(i, j, p));
            }
        }
    }

    /// A directory that was just opened takes the place of the entry in hand.
    proof fn lemma_opened(self, before: CopyTree, here: Seq<u8>)
        requires
            self.stack@.len() == before.stack@.len() + 1,
            self.stack@.drop_last() == before.stack@,
            self.top().dst_path@ == here,
            self.top().pos == 0,
            before.waiting is Root ==> here == before.temp_root@,
            !(before.waiting is Root) ==> before.in_hand() == Some(here),
            self.found@ == before.found@.union(places_in(here, views(self.top().children@))),
            self.settled == before.settled,
            forall|p: Seq<u8>| #[trigger]
                before.found@.contains(p) ==> before.settled@.contains(p) || before.awaits(p),
        ensures
            forall|p: Seq<u8>| #[trigger]
                self.found@.contains(p) ==> self.settled@.contains(p) || self.awaits(p),
    {
        let n = before.stack@.len() as int;
        assert forall|p: Seq<u8>| #[trigger] self.found@.contains(p) implies self.settled@.contains(
            p,
        ) || self.awaits(p) by {
            let names = views(self.top().children@);
            if places_in(here, names).contains(p) {
                let j = choose|j: int|
                    0 <= j < names.len() && p == joined(here, #[trigger] names[j]);
                assert(self.is_due(n, j, p));
            } else if before.awaits(p) {
                if p == here {
                    assert(self.is_open(n, p));
                } else if exists|i: int| #[trigger] before.is_open(i, p) {
                    let i = choose|i: int| #[trigger] before.is_open(i, p);
                    assert(self.stack@[i] == self.stack@.drop_last()[i]);
                    assert(self.is_open(i, p));
                } else {
                    let (i, j) = choose|i: int, j: int| #[trigger] before.is_due(i, j, p);
                    assert(self.stack@[i] == self.stack@.drop_last()[i]);
                    assert(self.is_due(i, j, p));
                }
            }
        }
    }

    proof fn lemma_told(self, before: CopyTree, here: Seq<u8>)
        requires
            before.is_traced(),
            self.waiting is Go,
            self.stack@.len() == before.stack@.len() + 1,
            self.stack@.drop_last() == before.stack@,
            self.top().dst_path@ == here,
            self.temp_root == before.temp_root,
            self.settled == before.settled,
            self.finished == before.finished,
            self.plain == before.plain,
            ({
                let names = views(self.top().children@);
                &&& self.found@ == before.found@.union(places_in(here, names))
                &&& self.told@ == told_more(before.told@, here, names)
            }),
        ensures
            self.is_traced(),
    {
        let names = views(self.top().children@);
        assert forall|p: Seq<u8>, n: Seq<u8>| #[trigger]
            names_told(self.told@, p).contains(n) implies self.found@.contains(joined(p, n)) by {
            if names_told(before.told@, p).contains(n) {
            } else {
                assert(p == here && names.contains(n));
                let j = choose|j: int| 0 <= j < names.len() && names[j] == n;
                assert(p == here && joined(p, n) == joined(here, names[j]));
                assert(places_in(here, names).contains(joined(p, n)));
            }
        }
        assert forall|i: int| 0 <= i < self.stack@.len() implies self.told@.contains_key(
            (#[trigger] self.stack@[i]).dst_path@,
        ) by {
            if i < before.stack@.len() {
                assert(self.stack@[i] == self.stack@.drop_last()[i]);
                assert(before.told@.contains_key(before.stack@[i].dst_path@));
            }
        }
    }

    /// The next entry of the innermost directory is taken in hand, or the directory itself.
    proof fn lemma_taken(self, before: CopyTree)
        requires
            before.wf(),
            before.waiting is Go,
            self.same_count(before),
            ({
                let top = before.top();
                if top.pos < top.children@.len() {
                    &&& self.stack@.len() == before.stack@.len()
                    &&& self.stack@.drop_last() == before.stack@.drop_last()
                    &&& self.top() == (CopyFrame { pos: (top.pos + 1) as usize, ..top })
                    &&& self.in_hand() == Some(
                        joined(top.dst_path@, top.children@[top.pos as int]@),
                    )
                } else {
                    &&& self.stack@ == before.stack@.drop_last()
                    &&& self.in_hand() == Some(top.dst_path@)
                }
            }),
        ensures
            forall|p: Seq<u8>| #[trigger]
                self.found@.contains(p) ==> self.settled@.contains(p) || self.awaits(p),
    {
        let n = before.stack@.len() - 1;
        assert forall|p: Seq<u8>| #[trigger] self.found@.contains(p) implies self.settled@.contains(
            p,
        ) || self.awaits(p) by {
            assert(before.found@.contains(p));
            if before.awaits(p) {
                if exists|i: int| #[trigger] before.is_open(i, p) {
                    let i = choose|i: int| #[trigger] before.is_open(i, p);
                    if i < n {
                        assert(self.stack@[i] == before.stack@.drop_last()[i]);
                        assert(self.is_open(i, p));
                    } else if self.stack@.len() > n {
                        assert(self.is_open(n, p));
                    }
                } else {
                    let (i, j) = choose|i: int, j: int| #[trigger] before.is_due(i, j, p);
                    if i < n {
                        assert(self.stack@[i] == before.stack@.drop_last()[i]);
                        assert(self.is_due(i, j, p));
                    } else if j > before.top().pos {
                        assert(self.is_due(n, j, p));
                    }
                }
            }
        }
    }

    /// The directory being copied.
    pub open spec fn top(&self) -> CopyFrame {
        self.stack@.last()
    }

    /// Whether nothing but what is being waited for has changed.
    pub open spec fn same_work(&self, other: CopyTree) -> bool {
        &&& self.src == other.src
        &&& self.source == other.source
        &&& self.temp == other.temp
        &&& self.temp_root == other.temp_root
        &&& self.stack == other.stack
        &&& self.links == other.links
        &&& self.copied == other.copied
        &&& self.announced == other.announced
        &&& self.copies == other.copies
    }

    pub open spec fn fails(&self, act: CopyAct, text: Seq<char>) -> bool {
        (act matches CopyAct::Failed(e) && e@ == text) && self.waiting is Over
    }

    pub open spec fn goes_on(&self, act: CopyAct) -> bool {
        act is CheckPause && self.waiting is Go
    }

    /// Start copying the directory `src`, found to be `source`, to the temporary `temp` beside
    /// `dst`.
    pub fn begin(src: Vec<u8>, source: Stat, dst: &[u8], temp: Vec<u8>) -> (r: (
        CopyTree,
        CopyAct,
    ))
        ensures
            r.0.wf(),
            r.0.src@ == src@,
            r.0.source == source,
            r.0.temp@ == temp@,
            r.0.temp_root@ == temp_root_of(dst@, temp@),
            r.0.stack@.len() == 0,
            r.0.links@ == Map::<u128, Vec<u8>>::empty(),
            r.0.copied == 0,
            !r.0.announced,
            r.0.waiting is Root,
            r.0.found@ == set![r.0.temp_root@],
            r.0.settled@ == Set::<Seq<u8>>::empty(),
            r.0.finished@ == Set::<Seq<u8>>::empty(),
            r.0.plain@ == Set::<Seq<u8>>::empty(),
            r.0.told@ == Map::<Seq<u8>, Set<Seq<u8>>>::empty(),
            r.0.copies@ == Seq::<(Option<u128>, u64)>::empty(),
            r.1 is OpenRoot,
    {
        let base = match parent(dst) {
            Some(p) => p,
            None => {
                let mut root: Vec<u8> = Vec::new();
                root.push(47);
                proof {
                    assert(root@ =~= seq![47u8]);
                }
                root
            },
        };
        let temp_root = join(base.as_slice(), temp.as_slice());
        let ghost found = set![temp_root@];
        (
            CopyTree {
                src,
                source,
                temp,
                temp_root,
                stack: Vec::new(),
                links: HashMap::new(),
                copied: 0,
                announced: false,
                waiting: CopyWait::Root,
                found: Ghost(found),
                settled: Ghost(Set::empty()),
                finished: Ghost(Set::empty()),
                plain: Ghost(Set::empty()),
                told: Ghost(Map::empty()),
                copies: Ghost(Seq::empty()),
                turn: Ghost(None),
            },
            CopyAct::OpenRoot,
        )
    }

    /// The two outermost directories were opened, or were not.
    pub fn root_opened(&mut self, reply: &DirReply) -> (r: CopyAct)
        requires
            old(self).wf(),
            old(self).waiting is Root,
            old(self).stack@.len() == 0,
        ensures
            final(self).wf(),
            final(self).links == old(self).links,
            final(self).copied == old(self).copied,
            final(self).copies == old(self).copies,
            final(self).announced == old(self).announced,
            final(self).src == old(self).src,
            final(self).source == old(self).source,
            final(self).temp == old(self).temp,
            final(self).temp_root == old(self).temp_root,
            match dir_fault(shown(old(self).src@), old(self).temp@, *reply) {
                Some(e) => final(self).fails(r, e) && final(self).stack == old(self).stack
                    && final(self).same_count(*old(self)),
                None => {
                    &&& final(self).settled == old(self).settled
                    &&& final(self).finished == old(self).finished
                    &&& final(self).plain == old(self).plain
                    &&& final(self).told@ == told_more(
                        old(self).told@,
                        old(self).temp_root@,
                        real_names(reply->Names_0@),
                    )
                    &&& final(self).found@ == old(self).found@.union(
                        places_in(old(self).temp_root@, real_names(reply->Names_0@)),
                    )
                    &&& final(self).goes_on(r)
                    &&& final(self).stack@.len() == 1
                    &&& final(self).top().dst_path@ == old(self).temp_root@
                    &&& final(self).top().source == old(self).source
                    &&& final(self).top().pos == 0
                    &&& views(final(self).top().children@) == real_names(reply->Names_0@)
                    &&& takes_in(reply->Names_0@, final(self).top().children@)
                },
            },
    {
        let place = show(self.src.as_slice());
        match read_names(place.as_str(), self.temp.as_slice(), reply) {
            Err(e) => {
                self.waiting = CopyWait::Over;
                CopyAct::Failed(e)
            },
            Ok(children) => {
                let dst_path = copy_bytes(self.temp_root.as_slice());
                let ghost here = dst_path@;
                let ghost names = views(children@);
                self.stack.push(CopyFrame { dst_path, source: self.source, children, pos: 0 });
                self.waiting = CopyWait::Go;
                proof {
                    self.found@ = self.found@.union(places_in(here, names));
                    self.told@ = told_more(self.told@, here, names);
                    assert(self.stack@.drop_last() =~= old(self).stack@);
                    self.lemma_opened(*old(self), here);
                    self.lemma_told(*old(self), here);
                }
                CopyAct::CheckPause
            },
        }
    }

    /// Go on with the innermost directory, unless someone has asked to stop.
    pub fn go_on(&mut self, paused: bool) -> (r: CopyAct)
        requires
            old(self).wf(),
            old(self).waiting is Go,
        ensures
            final(self).wf(),
            final(self).links == old(self).links,
            final(self).copied == old(self).copied,
            final(self).copies == old(self).copies,
            final(self).announced == old(self).announced,
            final(self).src == old(self).src,
            final(self).source == old(self).source,
            final(self).temp == old(self).temp,
            final(self).temp_root == old(self).temp_root,
            final(self).same_count(*old(self)),
            if paused {
                &&& r == CopyAct::Finished(Step::Paused(old(self).copied))
                &&& final(self).waiting is Over
                &&& final(self).stack == old(self).stack
            } else if old(self).top().pos < old(self).top().children@.len() {
                let name = old(self).top().children@[old(self).top().pos as int]@;
                &&& r matches CopyAct::Look { name: n } && n@ == name
                &&& final(self).waiting matches CopyWait::Look { name: n } && n@ == name
                &&& final(self).stack@.len() == old(self).stack@.len()
                &&& final(self).stack@.drop_last() == old(self).stack@.drop_last()
                &&& final(self).top() == (CopyFrame {
                    pos: (old(self).top().pos + 1) as usize,
                    ..old(self).top()
                })
            } else {
                &&& r == (CopyAct::SealDir { source: old(self).top().source })
                &&& final(self).waiting matches CopyWait::Seal { path } && path@
                    == old(self).top().dst_path@
                &&& final(self).stack@ == old(self).stack@.drop_last()
            },
    {
        if paused {
            self.waiting = CopyWait::Over;
            return CopyAct::Finished(Step::Paused(self.copied));
        }
        let ghost before = self.stack@;
        match self.stack.pop() {
            None => CopyAct::CheckPause,
            Some(mut top) => {
                proof {
                    assert(self.stack@ =~= before.drop_last());
                }
                if top.pos < top.children.len() {
                    let name = copy_bytes(top.children[top.pos].as_slice());
                    let again = copy_bytes(name.as_slice());
                    top.pos = top.pos + 1;
                    self.stack.push(top);
                    proof {
                        assert(self.stack@.drop_last() =~= before.drop_last());
                    }
                    self.waiting = CopyWait::Look { name };
                    proof {
                        self.lemma_taken(*old(self));
                    }
                    CopyAct::Look { name: again }
                } else {
                    let source = top.source;
                    self.waiting = CopyWait::Seal { path: top.dst_path };
                    proof {
                        self.lemma_taken(*old(self));
                    }
                    CopyAct::SealDir { source }
                }
            },
        }
    }

    /// A finished directory was sealed, or its source could not be looked at.
    pub fn sealed(&mut self, error: &Option<String>) -> (r: CopyAct)
        requires
            old(self).wf(),
            old(self).waiting is Seal,
        ensures
            final(self).wf(),
            final(self).same_work(*old(self)),
            final(self).settles(*old(self), r),
            match error {
                Some(e) => final(self).fails(r, "stat: "@ + e@),
                None => if old(self).stack@.len() == 0 {
                    &&& r == CopyAct::Finished(Step::Done(old(self).copied))
                    &&& final(self).waiting is Over
                    &&& final(self).all_settled()
                } else {
                    final(self).goes_on(r)
                },
            },
    {
        match error {
            Some(e) => {
                self.waiting = CopyWait::Over;
                CopyAct::Failed(cat2("stat: ", e.as_str()))
            },
            None => {
                proof {
                    self.settled@ = self.settled@.insert(old(self).in_hand()->0);
                    self.finished@ = self.finished@.insert(old(self).in_hand()->0);
                }
                if self.stack.len() == 0 {
                    self.waiting = CopyWait::Over;
                    proof {
                        self.lemma_same_dirs(*old(self));
                    }
                    CopyAct::Finished(Step::Done(self.copied))
                } else {
                    self.waiting = CopyWait::Go;
                    proof {
                        self.lemma_same_dirs(*old(self));
                    }
                    CopyAct::CheckPause
                }
            },
        }
    }

    /// An entry was looked at.
    ///
    /// A file with more than one link inside the tree must stay one file on the other side;
    /// copying it twice would silently double its size. Sockets and device nodes cannot be
    /// honestly reproduced, and a move that silently dropped one would then delete the original.
    pub fn looked(&mut self, look: &Looked) -> (r: CopyAct)
        requires
            old(self).wf(),
            old(self).waiting is Look,
        ensures
            final(self).wf(),
            final(self).stack == old(self).stack,
            final(self).copied == old(self).copied,
            final(self).copies == old(self).copies,
            final(self).announced == old(self).announced,
            final(self).src == old(self).src,
            final(self).source == old(self).source,
            final(self).temp == old(self).temp,
            final(self).temp_root == old(self).temp_root,
            final(self).found == old(self).found,
            final(self).told == old(self).told,
            final(self).finished == old(self).finished,
            final(self).plain@ == (if shows_no_dir(*look) {
                old(self).plain@.insert(old(self).in_hand()->0)
            } else {
                old(self).plain@
            }),
            final(self).settled@ == (if look is Gone {
                old(self).settled@.insert(old(self).in_hand()->0)
            } else {
                old(self).settled@
            }),
            ({
                let name = old(self).waiting->Look_name@;
                let here = joined(old(self).top().dst_path@, name);
                match look {
                    Looked::Gone => final(self).goes_on(r) && final(self).links == old(self).links,
                    Looked::Failed(e) => final(self).fails(
                        r,
                        "stat "@ + name_text(name) + ": "@ + e@,
                    ) && final(self).links == old(self).links,
                    Looked::Found(stat) => match Ident::spec_of(*stat).kind {
                        EntryKind::Dir => {
                            &&& r matches CopyAct::OpenDir { name: n, source } && n@ == name
                                && source == *stat
                            &&& final(self).waiting matches CopyWait::Dir { name: n, source: s }
                                && n@ == name && s == *stat
                            &&& final(self).links == old(self).links
                        },
                        EntryKind::Symlink => {
                            &&& r matches CopyAct::CopySymlink { name: n } && n@ == name
                            &&& final(self).waiting matches CopyWait::Symlink { name: n } && n@
                                == name
                            &&& final(self).links == old(self).links
                        },
                        EntryKind::File => {
                            let key = key_of(stat.dev, stat.ino);
                            if stat.nlink > 1 && old(self).links@.contains_key(key) {
                                &&& r matches CopyAct::LinkTo { first, name: n } && n@ == name
                                    && first@ == old(self).links@[key]@
                                &&& final(self).waiting matches CopyWait::Link {
                                    first,
                                    name: n,
                                    cleared,
                                } && n@ == name && first@ == old(self).links@[key]@ && !cleared
                                &&& final(self).links@ == old(self).links@
                            } else {
                                &&& r matches CopyAct::CopyFile { name: n, source } && n@ == name
                                    && source == *stat
                                &&& final(self).waiting matches CopyWait::File { name: n } && n@
                                    == name
                                &&& final(self).turn@ == (if stat.nlink > 1 {
                                    Some(key)
                                } else {
                                    None
                                })
                                &&& if stat.nlink > 1 {
                                    &&& final(self).links@.dom() == old(self).links@.dom().insert(
                                        key,
                                    )
                                    &&& final(self).links@[key]@ == here
                                    &&& forall|k: u128|
                                        old(self).links@.contains_key(k)
                                            ==> #[trigger] final(self).links@[k]
                                            == old(self).links@[k]
                                } else {
                                    final(self).links@ == old(self).links@
                                }
                            }
                        },
                        EntryKind::Other => {
                            &&& final(self).links == old(self).links
                            &&& if stat.mode & crate::stat::MODE_KIND == crate::stat::MODE_FIFO {
                                &&& r matches CopyAct::MakeFifo { name: n, source } && n@ == name
                                    && source == *stat
                                &&& final(self).waiting matches CopyWait::Fifo { name: n } && n@
                                    == name
                            } else {
                                final(self).fails(r, special_text(name))
                            }
                        },
                    },
                }
            }),
    {
        let mut waiting = CopyWait::Over;
        std::mem::swap(&mut waiting, &mut self.waiting);
        proof {
            if shows_no_dir(*look) {
                self.plain@ = self.plain@.insert(old(self).in_hand()->0);
            }
        }
        match waiting {
            CopyWait::Look { name } => match look {
                Looked::Gone => {
                    self.waiting = CopyWait::Go;
                    proof {
                        self.settled@ = self.settled@.insert(old(self).in_hand()->0);
                        self.lemma_same_dirs(*old(self));
                    }
                    CopyAct::CheckPause
                },
                Looked::Failed(e) => CopyAct::Failed(about("stat ", name.as_slice(), e.as_str())),
                Looked::Found(stat) => {
                    let again = copy_bytes(name.as_slice());
                    match Ident::of(stat).kind {
                        EntryKind::Dir => {
                            self.waiting = CopyWait::Dir { name, source: *stat };
                            proof {
                                self.lemma_same_dirs(*old(self));
                            }
                            CopyAct::OpenDir { name: again, source: *stat }
                        },
                        EntryKind::Symlink => {
                            self.waiting = CopyWait::Symlink { name };
                            proof {
                                self.lemma_same_dirs(*old(self));
                            }
                            CopyAct::CopySymlink { name: again }
                        },
                        EntryKind::File => {
                            if stat.nlink > 1 {
                                let key: u128 = inode_key(stat.dev, stat.ino);
                                match self.links.get(&key) {
                                    Some(first) => {
                                        let first = copy_bytes(first.as_slice());
                                        let kept = copy_bytes(first.as_slice());
                                        self.waiting = CopyWait::Link {
                                            first: kept,
                                            name,
                                            cleared: false,
                                        };
                                        proof {
                                            self.lemma_same_dirs(*old(self));
                                        }
                                        return CopyAct::LinkTo { first, name: again };
                                    },
                                    None => {},
                                }
                                let top = &self.stack[self.stack.len() - 1];
                                let here = join(top.dst_path.as_slice(), name.as_slice());
                                self.links.insert(key, here);
                            }
                            self.waiting = CopyWait::File { name };
                            proof {
                                self.turn@ = if stat.nlink > 1 {
                                    Some(key_of(stat.dev, stat.ino))
                                } else {
                                    None
                                };
                                self.lemma_same_dirs(*old(self));
                            }
                            CopyAct::CopyFile { name: again, source: *stat }
                        },
                        EntryKind::Other => {
                            if stat.is_fifo() {
                                self.waiting = CopyWait::Fifo { name };
                                proof {
                                    self.lemma_same_dirs(*old(self));
                                }
                                CopyAct::MakeFifo { name: again, source: *stat }
                            } else {
                                let q = name_string(name.as_slice());
                                CopyAct::Failed(
                                    cat2(
                                        q.as_str(),
                                        " is a special file; ccdu will not pretend to have copied it",
                                    ),
                                )
                            }
                        },
                    }
                },
            },
            _ => CopyAct::CheckPause,
        }
    }

    /// A directory inside was opened and its counterpart made, or was not.
    pub fn dir_opened(&mut self, reply: &DirReply) -> (r: CopyAct)
        requires
            old(self).wf(),
            old(self).waiting is Dir,
        ensures
            final(self).wf(),
            final(self).links == old(self).links,
            final(self).copied == old(self).copied,
            final(self).copies == old(self).copies,
            final(self).announced == old(self).announced,
            final(self).src == old(self).src,
            final(self).source == old(self).source,
            final(self).temp == old(self).temp,
            final(self).temp_root == old(self).temp_root,
            ({
                let name = old(self).waiting->Dir_name@;
                match dir_fault(name_text(name), name, *reply) {
                    Some(e) => final(self).fails(r, e) && final(self).stack == old(self).stack
                        && final(self).same_count(*old(self)),
                    None => if old(self).stack@.len() >= MAX_DEPTH {
                        final(self).fails(r, "directory nesting deeper than 512 levels"@)
                            && final(self).stack == old(self).stack && final(self).same_count(
                            *old(self),
                        )
                    } else {
                        &&& final(self).settled == old(self).settled
                        &&& final(self).finished == old(self).finished
                        &&& final(self).plain == old(self).plain
                        &&& final(self).told@ == told_more(
                            old(self).told@,
                            joined(old(self).top().dst_path@, name),
                            real_names(reply->Names_0@),
                        )
                        &&& final(self).found@ == old(self).found@.union(
                            places_in(
                                joined(old(self).top().dst_path@, name),
                                real_names(reply->Names_0@),
                            ),
                        )
                        &&& final(self).goes_on(r)
                        &&& final(self).stack@.len() == old(self).stack@.len() + 1
                        &&& final(self).stack@.drop_last() == old(self).stack@
                        &&& final(self).top().dst_path@ == joined(
                            old(self).top().dst_path@,
                            name,
                        )
                        &&& final(self).top().source == old(self).waiting->Dir_source
                        &&& final(self).top().pos == 0
                        &&& views(final(self).top().children@) == real_names(reply->Names_0@)
                        &&& takes_in(reply->Names_0@, final(self).top().children@)
                    },
                }
            }),
    {
        let mut waiting = CopyWait::Over;
        std::mem::swap(&mut waiting, &mut self.waiting);
        match waiting {
            CopyWait::Dir { name, source } => {
                let place = name_string(name.as_slice());
                match read_names(place.as_str(), name.as_slice(), reply) {
                    Err(e) => CopyAct::Failed(e),
                    Ok(children) => {
                        if self.stack.len() >= MAX_DEPTH {
                            return CopyAct::Failed(
                                String::from_str("directory nesting deeper than 512 levels"),
                            );
                        }
                        let ghost before = self.stack@;
                        let top = &self.stack[self.stack.len() - 1];
                        let dst_path = join(top.dst_path.as_slice(), name.as_slice());
                        let ghost here = dst_path@;
                        let ghost names = views(children@);
                        self.stack.push(CopyFrame { dst_path, source, children, pos: 0 });
                        self.waiting = CopyWait::Go;
                        proof {
                            assert(self.stack@.drop_last() =~= before);
                            self.found@ = self.found@.union(places_in(here, names));
                            self.told@ = told_more(self.told@, here, names);
                            self.lemma_opened(*old(self), here);
                            self.lemma_told(*old(self), here);
                        }
                        CopyAct::CheckPause
                    },
                }
            },
            _ => CopyAct::CheckPause,
        }
    }

    /// A symlink was copied, or was not. One left by an earlier attempt will do.
    pub fn symlinked(&mut self, how: &Linked) -> (r: CopyAct)
        requires
            old(self).wf(),
            old(self).waiting is Symlink,
        ensures
            final(self).wf(),
            final(self).same_work(*old(self)),
            final(self).settles(*old(self), r),
            ({
                let name = old(self).waiting->Symlink_name@;
                match how {
                    Linked::Unreadable(e) => final(self).fails(
                        r,
                        "reading link "@ + name_text(name) + ": "@ + e@,
                    ),
                    Linked::Failed(e) => final(self).fails(
                        r,
                        "recreating link "@ + name_text(name) + ": "@ + e@,
                    ),
                    _ => final(self).goes_on(r),
                }
            }),
    {
        let mut waiting = CopyWait::Over;
        std::mem::swap(&mut waiting, &mut self.waiting);
        match waiting {
            CopyWait::Symlink { name } => {
                let act = copied_symlink(name.as_slice(), how, &mut self.waiting);
                proof {
                    if !(act is Failed) {
                        self.settled@ = self.settled@.insert(old(self).in_hand()->0);
                        self.lemma_same_dirs(*old(self));
                    }
                }
                act
            },
            _ => CopyAct::CheckPause,
        }
    }

    /// Another name was made for a file that is there already, or was not. What an earlier attempt
    /// left under that name need not be that file, which may have been copied anew, so it makes
    /// way. What does not make way is in the way.
    pub fn linked(&mut self, how: &Linked) -> (r: CopyAct)
        requires
            old(self).wf(),
            old(self).waiting is Link,
        ensures
            final(self).wf(),
            final(self).same_work(*old(self)),
            if how is AlreadyThere && !old(self).waiting->Link_cleared {
                final(self).same_count(*old(self))
            } else {
                final(self).settles(*old(self), r)
            },
            match how {
                Linked::Yes => final(self).goes_on(r),
                Linked::AlreadyThere => {
                    let first = old(self).waiting->Link_first@;
                    let name = old(self).waiting->Link_name@;
                    if old(self).waiting->Link_cleared {
                        final(self).fails(
                            r,
                            "linking "@ + name_text(name) + ": "@ + "something is in the way"@,
                        )
                    } else {
                        &&& r matches CopyAct::Clear { name: n } && n@ == name
                        &&& final(self).waiting matches CopyWait::Clear { first: f, name: n } && f@
                            == first && n@ == name
                    }
                },
                Linked::Unreadable(e) => final(self).fails(
                    r,
                    "linking "@ + name_text(old(self).waiting->Link_name@) + ": "@ + e@,
                ),
                Linked::Failed(e) => final(self).fails(
                    r,
                    "linking "@ + name_text(old(self).waiting->Link_name@) + ": "@ + e@,
                ),
            },
    {
        let mut waiting = CopyWait::Over;
        std::mem::swap(&mut waiting, &mut self.waiting);
        match waiting {
            CopyWait::Link { first, name, cleared } => match how {
                Linked::Yes => {
                    self.waiting = CopyWait::Go;
                    proof {
                        self.settled@ = self.settled@.insert(old(self).in_hand()->0);
                        self.lemma_same_dirs(*old(self));
                    }
                    CopyAct::CheckPause
                },
                Linked::AlreadyThere => {
                    if cleared {
                        return CopyAct::Failed(
                            about("linking ", name.as_slice(), "something is in the way"),
                        );
                    }
                    let again = copy_bytes(name.as_slice());
                    self.waiting = CopyWait::Clear { first, name };
                    proof {
                        self.lemma_same_dirs(*old(self));
                    }
                    CopyAct::Clear { name: again }
                },
                Linked::Unreadable(e) => CopyAct::Failed(
                    about("linking ", name.as_slice(), e.as_str()),
                ),
                Linked::Failed(e) => CopyAct::Failed(about("linking ", name.as_slice(), e.as_str())),
            },
            _ => CopyAct::CheckPause,
        }
    }

    /// The name to be linked was cleared, as far as it could be.
    pub fn cleared(&mut self) -> (r: CopyAct)
        requires
            old(self).wf(),
            old(self).waiting is Clear,
        ensures
            final(self).wf(),
            final(self).same_work(*old(self)),
            final(self).same_count(*old(self)),
            ({
                let first = old(self).waiting->Clear_first@;
                let name = old(self).waiting->Clear_name@;
                &&& r matches CopyAct::LinkTo { first: f, name: n } && f@ == first && n@ == name
                &&& final(self).waiting matches CopyWait::Link { first: f, name: n, cleared } && f@
                    == first && n@ == name && cleared
            }),
    {
        let mut waiting = CopyWait::Over;
        std::mem::swap(&mut waiting, &mut self.waiting);
        match waiting {
            CopyWait::Clear { first, name } => {
                let act = CopyAct::LinkTo {
                    first: copy_bytes(first.as_slice()),
                    name: copy_bytes(name.as_slice()),
                };
                self.waiting = CopyWait::Link { first, name, cleared: true };
                proof {
                    self.lemma_same_dirs(*old(self));
                }
                act
            },
            _ => CopyAct::CheckPause,
        }
    }

    /// A file was copied, or was not.
    pub fn file_copied(&mut self, result: &Result<u64, String>) -> (r: CopyAct)
        requires
            old(self).wf(),
            old(self).waiting is File,
            result matches Ok(n) ==> old(self).copied + *n <= u64::MAX,
        ensures
            final(self).wf(),
            final(self).stack == old(self).stack,
            final(self).links == old(self).links,
            final(self).src == old(self).src,
            final(self).source == old(self).source,
            final(self).temp == old(self).temp,
            final(self).temp_root == old(self).temp_root,
            final(self).settles(*old(self), r),
            match result {
                Err(e) => {
                    &&& final(self).fails(r, e@)
                    &&& final(self).copies == old(self).copies
                    &&& final(self).copied == old(self).copied
                    &&& final(self).announced == old(self).announced
                },
                Ok(n) => {
                    &&& final(self).copies@ == old(self).copies@.push((old(self).turn@, *n))
                    &&& final(self).copied == old(self).copied + *n
                    &&& final(self).announced
                    &&& final(self).waiting is Go
                    &&& if old(self).announced {
                        r is CheckPause
                    } else {
                        r is Announce
                    }
                },
            },
    {
        match result {
            Err(e) => {
                self.waiting = CopyWait::Over;
                CopyAct::Failed(e.clone())
            },
            Ok(n) => {
                self.copied = self.copied + *n;
                self.waiting = CopyWait::Go;
                let told = self.announced;
                self.announced = true;
                proof {
                    self.settled@ = self.settled@.insert(old(self).in_hand()->0);
                    self.copies@ = self.copies@.push((self.turn@, *n));
                    self.lemma_same_dirs(*old(self));
                    self.lemma_one_more(*old(self), *n);
                }
                if told {
                    CopyAct::CheckPause
                } else {
                    CopyAct::Announce
                }
            },
        }
    }

    /// The copy of a file stopped part way, because someone asked for it.
    pub fn file_stopped(&mut self) -> (r: CopyAct)
        requires
            old(self).wf(),
            old(self).waiting is File,
        ensures
            final(self).wf(),
            final(self).same_work(*old(self)),
            final(self).same_count(*old(self)),
            r == CopyAct::Finished(Step::Paused(old(self).copied)),
            final(self).waiting is Over,
    {
        self.waiting = CopyWait::Over;
        CopyAct::Finished(Step::Paused(self.copied))
    }

    /// A named pipe was made anew, or could not be. One left by an earlier attempt will do.
    pub fn fifo_made(&mut self, how: &Linked) -> (r: CopyAct)
        requires
            old(self).wf(),
            old(self).waiting is Fifo,
        ensures
            final(self).wf(),
            final(self).same_work(*old(self)),
            final(self).settles(*old(self), r),
            if how is Yes || how is AlreadyThere {
                final(self).goes_on(r)
            } else {
                final(self).fails(r, special_text(old(self).waiting->Fifo_name@))
            },
    {
        let mut waiting = CopyWait::Over;
        std::mem::swap(&mut waiting, &mut self.waiting);
        match waiting {
            CopyWait::Fifo { name } => {
                let made = match how {
                    Linked::Yes => true,
                    Linked::AlreadyThere => true,
                    _ => false,
                };
                if made {
                    self.waiting = CopyWait::Go;
                    proof {
                        self.settled@ = self.settled@.insert(old(self).in_hand()->0);
                        self.lemma_same_dirs(*old(self));
                    }
                    CopyAct::CheckPause
                } else {
                    let q = name_string(name.as_slice());
                    CopyAct::Failed(
                        cat2(
                            q.as_str(),
                            " is a special file; ccdu will not pretend to have copied it",
                        ),
                    )
                }
            },
            _ => CopyAct::CheckPause,
        }
    }
}

fn copied_symlink(name: &[u8], how: &Linked, waiting: &mut CopyWait) -> (r: CopyAct)
    requires
        *old(waiting) is Over,
    ensures
        match how {
            Linked::Unreadable(e) => (r matches CopyAct::Failed(t) && t@ == "reading link "@
                + name_text(name@) + ": "@ + e@) && *final(waiting) is Over,
            Linked::Failed(e) => (r matches CopyAct::Failed(t) && t@ == "recreating link "@
                + name_text(name@) + ": "@ + e@) && *final(waiting) is Over,
            _ => r is CheckPause && *final(waiting) is Go,
        },
{
    match how {
        Linked::Unreadable(e) => CopyAct::Failed(about("reading link ", name, e.as_str())),
        Linked::Failed(e) => CopyAct::Failed(about("recreating link ", name, e.as_str())),
        _ => {
            *waiting = CopyWait::Go;
            CopyAct::CheckPause
        },
    }
}

/// What came of copying a symlink that is moved by itself.
pub fn copy_symlink(name: &[u8], temp: &[u8], how: &Linked) -> (r: Result<Step, String>)
    ensures
        match how {
            Linked::Unreadable(e) => r matches Err(t) && t@ == "reading link "@ + name_text(name@) + ": "@ + e@,
            Linked::Failed(e) => r matches Err(t) && t@ == "recreating link "@ + name_text(temp@) + ": "@ + e@,
            _ => r == Ok::<Step, String>(Step::Done(0)),
        },
{
    match how {
        Linked::Unreadable(e) => Err(about("reading link ", name, e.as_str())),
        Linked::Failed(e) => Err(about("recreating link ", temp, e.as_str())),
        _ => Ok(Step::Done(0)),
    }
}

/// What came of copying a regular file that is moved by itself.
pub open spec fn regular_result(act: FileAsk, paused: bool) -> Option<Step> {
    match act {
        FileAsk::Finished { copied } => if paused {
            Some(Step::Paused(copied))
        } else {
            Some(Step::Done(copied))
        },
        FileAsk::Stopped => Some(Step::Paused(0)),
        _ => None,
    }
}

/// How the copy of a regular file that is moved by itself ended, once it has.
pub fn copy_regular(act: &FileAct, paused: bool) -> (r: Option<Step>)
    ensures
        r == regular_result(act@, paused),
{
    match act {
        FileAct::Finished { copied } => if paused {
            Some(Step::Paused(*copied))
        } else {
            Some(Step::Done(*copied))
        },
        FileAct::Stopped => Some(Step::Paused(0)),
        _ => None,
    }
}

} // verus!
