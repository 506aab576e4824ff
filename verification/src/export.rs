//! Reading and writing scanned trees.
//!
//! Two formats. The native one mirrors the in-memory arena, so writing it is close to a memcpy and
//! reading it back is exact. The ncdu one exists so a scan can cross between the two tools in
//! either direction: scan on a server with whichever is installed, analyse wherever you like.
//!
//! Both readers treat their input as untrusted. A file that claims a node's parent is index four
//! billion gets an error, not a panic somewhere much later.

pub mod native;
pub mod ncdu;

use vstd::prelude::*;

use crate::export::native::{file_of, magic, parts_of, reading_of, Reading};
use crate::export::ncdu::dump_text;
use crate::model::Tree;
use crate::text::copy_bytes;

verus! {

/// Why a tree could not be read.
#[derive(Clone, Debug, PartialEq, Eq)]
pub enum ReadError {
    /// The input ends before it should.
    Truncated,
    Invalid(String),
}

impl ReadError {
    /// Whether this is what came of reading a file.
    pub open spec fn is_reading(&self, reading: Reading) -> bool {
        match self {
            ReadError::Truncated => reading is Truncated,
            ReadError::Invalid(e) => reading == Reading::Invalid(e@),
        }
    }

    pub open spec fn text(&self) -> Seq<char> {
        match self {
            ReadError::Truncated => "failed to fill whole buffer"@,
            ReadError::Invalid(e) => e@,
        }
    }

    /// The error as text.
    pub fn message(&self) -> (r: String)
        ensures
            r@ == self.text(),
    {
        match self {
            ReadError::Truncated => String::from_str("failed to fill whole buffer"),
            ReadError::Invalid(e) => e.clone(),
        }
    }
}

#[derive(Clone, Copy, Debug, PartialEq, Eq, Structural)]
pub enum Format {
    /// The native format: exact, compact, and fast to load.
    Native,
    /// ncdu's JSON export, as produced by `ncdu -o`.
    NcduJson,
}

impl Format {
    pub open spec fn spec_name(self) -> Seq<char> {
        match self {
            Format::Native => "ccdu"@,
            Format::NcduJson => "ncdu-json"@,
        }
    }

    pub fn name(self) -> (r: &'static str)
        ensures
            r@ == self.spec_name(),
    {
        match self {
            Format::Native => "ccdu",
            Format::NcduJson => "ncdu-json",
        }
    }
}

/// A tree in either format. What the JSON form says of its origin is that it was written by
/// `version` of the program at `timestamp`.
pub fn write(tree: &Tree, format: Format, version: &str, timestamp: u64) -> (r: Vec<u8>)
    requires
        tree.wf(),
        format is Native ==> tree.root().len() <= u32::MAX,
    ensures
        r@ == (match format {
            Format::Native => file_of(parts_of(*tree)),
            Format::NcduJson => vstd::utf8::encode_utf8(
                dump_text(*tree, version@, timestamp as nat),
            ),
        }),
{
    match format {
        Format::Native => native::write(tree),
        Format::NcduJson => {
            let text = ncdu::write(tree, version, timestamp);
            copy_bytes(text.as_str().as_bytes())
        },
    }
}

/// What some input turned out to hold.
pub enum Input {
    Tree(Tree),
    /// JSON, which is still to be parsed and handed to the ncdu reader.
    Json,
}

/// Whether input that starts with this byte is taken for JSON.
pub open spec fn starts_json(b: u8) -> bool {
    b == 32 || b == 9 || b == 10 || b == 12 || b == 13 || b == 91
}

/// Reads a tree, working out which format it is from its first bytes.
///
/// The native format starts with a magic number and ncdu's with `[`, so this needs no filename
/// conventions and works on a pipe.
pub fn read(b: &[u8]) -> (r: Result<Input, ReadError>)
    ensures
        if b@.len() >= 4 && b@.take(4) == magic() {
            match r {
                Ok(Input::Tree(t)) => t.wf() && reading_of(b@) == Reading::Tree(parts_of(t)),
                Ok(Input::Json) => false,
                Err(e) => e.is_reading(reading_of(b@)),
            }
        } else if b@.len() > 0 && starts_json(b@[0]) {
            r matches Ok(Input::Json)
        } else {
            r matches Err(ReadError::Invalid(e)) && e@ == "not a ccdu export or an ncdu JSON dump"@
        },
{
    let is_native = b.len() >= 4 && b[0] == 67 && b[1] == 67 && b[2] == 68 && b[3] == 85;
    proof {
        if b@.len() >= 4 {
            if is_native {
                assert(b@.take(4) =~= magic());
            } else if b@.take(4) == magic() {
                assert(b@[0] == b@.take(4)[0]);
                assert(b@[1] == b@.take(4)[1]);
                assert(b@[2] == b@.take(4)[2]);
                assert(b@[3] == b@.take(4)[3]);
            }
        }
    }
    if is_native {
        match native::read(b) {
            Ok(t) => Ok(Input::Tree(t)),
            Err(e) => Err(e),
        }
    } else if b.len() > 0 && (b[0] == 32 || b[0] == 9 || b[0] == 10 || b[0] == 12 || b[0] == 13
        || b[0] == 91) {
        Ok(Input::Json)
    } else {
        Err(ReadError::Invalid(String::from_str("not a ccdu export or an ncdu JSON dump")))
    }
}

/// What begins with a bracket, or with blanks, is taken for text, and everything else for an export of
/// this program.
pub proof fn law_what_is_taken_for_text(b: u8)
    ensures
        starts_json(b) == (b == 0x20 || b == 0x09 || b == 0x0a || b == 0x0c || b == 0x0d || b == 0x5b),
        !starts_json(67),
{
}

} // verus!
