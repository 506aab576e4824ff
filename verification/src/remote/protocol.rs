//! Frames on the wire.
//!
//! Every frame is a one-byte tag, a four-byte length, then that many bytes. Control messages are
//! JSON, which keeps the protocol readable when something goes wrong; the tree is sent as a native
//! export, which is compact and needs no re-encoding at either end.

use vstd::prelude::*;

use crate::bytes::{
    law_numbers_round_trip, le_bytes, le_value, lemma_le_len, lemma_le_ranges, push_le, read_le,
};
use crate::exec::{ExecEvent, Outcome, RunState};
use crate::plan::{Ident, Plan};
use crate::text::{cat3, copy_bytes, dec, decimal};

verus! {

/// Bumped when the messages change incompatibly. Both ends check on connect, so a mismatch is a
/// clear refusal rather than a confusing failure halfway through a scan.
pub const VERSION: u32 = 1;

/// A frame larger than this is refused before allocating. The tree of a very large filesystem is
/// the biggest legitimate payload, and this is far past it.
pub const MAX_FRAME: u32 = 0x7fff_ffff;

pub const TAG_MESSAGE: u8 = 0;

pub const TAG_TREE: u8 = 1;

#[derive(Debug)]
pub enum Request {
    Hello { version: u32 },
    Scan { path: String, one_file_system: bool, threads: usize, exclude: Vec<String> },
    /// Store a plan on the remote, where its paths mean something.
    SavePlan { plan: Plan },
    /// Read the identity of some paths, so a tree fetched from here can be staged against.
    /// Staging records what an entry looked like, and only the machine holding it can say.
    Identify { paths: Vec<String> },
    /// Run a stored plan. Progress is streamed back as it happens.
    Apply { id: String, dry_run: bool },
    Bye,
}

#[derive(Debug)]
pub enum Response {
    Hello { version: u32, ccdu: String, host: String },
    Progress { dirs: u64, entries: u64, disk: u64 },
    /// Followed by a frame holding the tree itself.
    Scanning,
    PlanSaved { id: String, path: String },
    /// One entry per requested path, `None` where it could not be read.
    Identities { idents: Vec<Option<Ident>> },
    Exec { event: ExecEvent },
    ExecDone { outcome: Outcome, state: RunState },
    Error { message: String },
}

/// Why a frame could not be read or written.
#[derive(Clone, Debug, PartialEq, Eq)]
pub enum FrameError {
    /// The stream ended within a frame.
    Eof,
    /// It is too large to be sent.
    TooLarge(String),
    /// It cannot be one.
    Invalid(String),
}

/// A frame as it goes over the wire.
pub open spec fn frame_bytes(tag: u8, body: Seq<u8>) -> Seq<u8> {
    seq![tag] + le_bytes(body.len(), 4) + body
}

/// Appends one frame.
pub fn write_frame(out: &mut Vec<u8>, tag: u8, body: &[u8]) -> (r: Result<(), FrameError>)
    ensures
        match r {
            Ok(_) => body@.len() <= MAX_FRAME && final(out)@ == old(out)@ + frame_bytes(tag, body@),
            Err(e) => {
                &&& body@.len() > MAX_FRAME
                &&& final(out)@ == old(out)@
                &&& e matches FrameError::TooLarge(text) && text@ == "frame of "@ + dec(
                    body@.len(),
                ) + " bytes is too large"@
            },
        },
{
    if body.len() as u64 > MAX_FRAME as u64 {
        let n = decimal(body.len() as u64);
        return Err(FrameError::TooLarge(cat3("frame of ", n.as_str(), " bytes is too large")));
    }
    let ghost start = out@;
    out.push(tag);
    push_le(out, body.len() as u64, 4);
    let mut i: usize = 0;
    let ghost lead = out@;
    while i < body.len()
        invariant
            i <= body@.len(),
            out@ == lead + body@.take(i as int),
        decreases body.len() - i,
    {
        out.push(body[i]);
        proof {
            assert(body@.take(i + 1) =~= body@.take(i as int).push(body@[i as int]));
        }
        i += 1;
    }
    proof {
        assert(body@.take(i as int) =~= body@);
        assert(out@ =~= start + frame_bytes(tag, body@));
    }
    Ok(())
}

/// What the first five bytes of a frame announce: its tag, and the length of what follows.
pub open spec fn header_len(header: Seq<u8>) -> nat {
    le_value(header.subrange(1, 5))
}

/// Reads the five bytes a frame starts with.
///
/// A length past the limit is refused here, before anything is allocated for it.
pub fn read_header(header: &[u8]) -> (r: Result<(u8, u32), FrameError>)
    requires
        header@.len() == 5,
    ensures
        match r {
            Ok((tag, len)) => tag == header@[0] && len == header_len(header@) && len <= MAX_FRAME,
            Err(e) => {
                &&& header_len(header@) > MAX_FRAME
                &&& e matches FrameError::Invalid(text) && text@ == "peer announced a "@ + dec(
                    header_len(header@),
                ) + "-byte frame"@
            },
        },
{
    let len: u64 = read_le(header, 1, 4);
    proof {
        lemma_le_ranges();
    }
    if len > MAX_FRAME as u64 {
        let n = decimal(len);
        return Err(FrameError::Invalid(cat3("peer announced a ", n.as_str(), "-byte frame")));
    }
    Ok((header[0], len as u32))
}

/// A frame that was read, and where the next one starts.
#[derive(Debug)]
pub struct Frame {
    pub tag: u8,
    pub body: Vec<u8>,
    pub next: usize,
}

/// Reads the frame that starts at `at`. There is none at a clean end of the stream, where not one
/// byte is left; a stream that stops anywhere inside a frame was cut off.
pub fn read_frame(input: &[u8], at: usize) -> (r: Result<Option<Frame>, FrameError>)
    requires
        at <= input@.len(),
    ensures
        ({
            let rest = input@.skip(at as int);
            if rest.len() == 0 {
                r matches Ok(None)
            } else if rest.len() < 5 {
                r matches Err(FrameError::Eof)
            } else if header_len(rest.take(5)) > MAX_FRAME {
                r matches Err(FrameError::Invalid(text)) && text@ == "peer announced a "@ + dec(
                    header_len(rest.take(5)),
                ) + "-byte frame"@
            } else if rest.len() < 5 + header_len(rest.take(5)) {
                r matches Err(FrameError::Eof)
            } else {
                r matches Ok(Some(frame)) && frame.tag == rest[0] && frame.body@ == rest.subrange(
                    5,
                    5 + header_len(rest.take(5)) as int,
                ) && frame.next == at + 5 + header_len(rest.take(5))
            }
        }),
{
    let ghost rest = input@.skip(at as int);
    proof {
        assert(input@.len() == input.len());
    }
    if input.len() == at {
        return Ok(None);
    }
    if input.len() - at < 5 {
        return Err(FrameError::Eof);
    }
    let header = vstd::slice::slice_subrange(input, at, at + 5);
    proof {
        assert(header@ =~= rest.take(5));
    }
    let (tag, len): (u8, u32) = match read_header(header) {
        Ok(h) => h,
        Err(e) => return Err(e),
    };
    if ((input.len() - at - 5) as u64) < len as u64 {
        return Err(FrameError::Eof);
    }
    let end: usize = at + 5 + len as usize;
    let body = copy_bytes(vstd::slice::slice_subrange(input, at + 5, end));
    proof {
        assert(body@ =~= rest.subrange(5, 5 + header_len(rest.take(5)) as int));
    }
    Ok(Some(Frame { tag, body, next: end }))
}

/// A frame that was written is read back: the same tag, the same body, and what follows it next.
pub proof fn law_frames_round_trip(tag: u8, body: Seq<u8>, after: Seq<u8>)
    requires
        body.len() <= MAX_FRAME,
    ensures
        ({
            let stream = frame_bytes(tag, body) + after;
            &&& stream.len() >= 5 + body.len()
            &&& stream[0] == tag
            &&& header_len(stream.take(5)) == body.len()
            &&& stream.subrange(5, 5 + body.len() as int) == body
            &&& stream.skip(5 + body.len() as int) == after
        }),
{
    let stream = frame_bytes(tag, body) + after;
    lemma_le_len(body.len(), 4);
    lemma_le_ranges();
    law_numbers_round_trip(body.len(), 4);
    assert(stream.take(5).subrange(1, 5) =~= le_bytes(body.len(), 4));
    assert(stream.subrange(5, 5 + body.len() as int) =~= body);
    assert(stream.skip(5 + body.len() as int) =~= after);
}

/// What a frame is: a tag, how long the body is in four bytes, and the body.
pub proof fn law_what_a_frame_is(tag: u8, body: Seq<u8>)
    ensures
        frame_bytes(tag, body).len() == 5 + body.len(),
        frame_bytes(tag, body)[0] == tag,
        frame_bytes(tag, body).subrange(1, 5) == le_bytes(body.len(), 4),
        frame_bytes(tag, body).skip(5) == body,
        TAG_MESSAGE == 0,
        TAG_TREE == 1,
        VERSION == 1,
        MAX_FRAME == 0x7fff_ffff,
{
    lemma_le_len(body.len(), 4);
    let b = frame_bytes(tag, body);
    assert(b.subrange(1, 5) =~= le_bytes(body.len(), 4));
    assert(b.skip(5) =~= body);
}

} // verus!
