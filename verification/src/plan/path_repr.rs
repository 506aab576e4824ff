//! Paths as text, without loss.
//!
//! Paths are bytes, not text. For a tool that deletes files it is not acceptable to be unable to
//! name one: a plan must be able to name every file it can see, and a name must survive the round
//! trip unchanged.
//!
//! Ordinary paths are written as plain strings, so plan files stay readable. Anything that is not
//! valid UTF-8 is written in hexadecimal instead.

use vstd::prelude::*;

use crate::text::{cat2, copy_bytes, quote, quoted};

verus! {

/// A path as a plan file holds it.
#[derive(Clone, Debug, PartialEq, Eq)]
pub enum PathRepr {
    Text(String),
    Hex(String),
}

/// Why something is not a path.
#[derive(Clone, Debug, PartialEq, Eq)]
pub enum PathError {
    /// What was wrong with the digits.
    Malformed(String),
    /// A key other than the one for digits.
    Unknown(String),
    /// No digits at all.
    Missing,
}

/// One hexadecimal digit, in lower case.
pub open spec fn hex_char(n: nat) -> char {
    if n < 10 {
        (48 + n) as char
    } else {
        (87 + n) as char
    }
}

/// Bytes in hexadecimal, two digits each.
pub open spec fn hex_of(bytes: Seq<u8>) -> Seq<char> {
    Seq::new(
        2 * bytes.len(),
        |i: int|
            if i % 2 == 0 {
                hex_char((bytes[i / 2] / 16) as nat)
            } else {
                hex_char((bytes[i / 2] % 16) as nat)
            },
    )
}

/// What a hexadecimal digit stands for, in either case.
pub open spec fn hex_value(b: u8) -> Option<u8> {
    if 48 <= b <= 57 {
        Some((b - 48) as u8)
    } else if 97 <= b <= 102 {
        Some((b - 87) as u8)
    } else if 65 <= b <= 70 {
        Some((b - 55) as u8)
    } else {
        None
    }
}

/// Whether some text is pairs of hexadecimal digits.
pub open spec fn is_hex(text: Seq<u8>) -> bool {
    text.len() % 2 == 0 && forall|i: int|
        0 <= i < text.len() ==> hex_value(#[trigger] text[i]) is Some
}

/// The bytes that pairs of hexadecimal digits stand for.
pub open spec fn unhex(text: Seq<u8>) -> Seq<u8> {
    Seq::new(
        text.len() / 2,
        |i: int| (hex_value(text[2 * i])->0 * 16 + hex_value(text[2 * i + 1])->0) as u8,
    )
}

pub(crate) fn hex_digit(n: u8) -> (r: char)
    requires
        n < 16,
    ensures
        r == hex_char(n as nat),
{
    let b: u8 = if n < 10 {
        48 + n
    } else {
        87 + n
    };
    b as char
}

fn value(b: u8) -> (r: Option<u8>)
    ensures
        r == hex_value(b),
        r matches Some(n) ==> n < 16,
{
    if 48 <= b && b <= 57 {
        Some(b - 48)
    } else if 97 <= b && b <= 102 {
        Some(b - 87)
    } else if 65 <= b && b <= 70 {
        Some(b - 55)
    } else {
        None
    }
}

pub fn to_hex(bytes: &[u8]) -> (r: String)
    ensures
        r@ == hex_of(bytes@),
{
    let mut out = String::new();
    let mut i: usize = 0;
    proof {
        assert(out@ =~= hex_of(bytes@.take(0)));
    }
    while i < bytes.len()
        invariant
            i <= bytes@.len(),
            out@ == hex_of(bytes@.take(i as int)),
        decreases bytes.len() - i,
    {
        let b: u8 = bytes[i];
        out.push(hex_digit(b / 16));
        out.push(hex_digit(b % 16));
        proof {
            assert(out@ =~= hex_of(bytes@.take(i + 1)));
        }
        i += 1;
    }
    proof {
        assert(bytes@.take(i as int) =~= bytes@);
    }
    out
}

/// The bytes that hexadecimal text stands for, where it is that.
pub fn from_hex(text: &str) -> (r: Option<Vec<u8>>)
    ensures
        match r {
            Some(bytes) => is_hex(vstd::utf8::encode_utf8(text@)) && bytes@ == unhex(
                vstd::utf8::encode_utf8(text@),
            ),
            None => !is_hex(vstd::utf8::encode_utf8(text@)),
        },
{
    let b = text.as_bytes();
    if b.len() % 2 != 0 {
        return None;
    }
    let mut out: Vec<u8> = Vec::new();
    let mut i: usize = 0;
    while i < b.len()
        invariant
            b@ == vstd::utf8::encode_utf8(text@),
            b@.len() % 2 == 0,
            i % 2 == 0,
            i <= b@.len(),
            forall|k: int| 0 <= k < i ==> hex_value(#[trigger] b@[k]) is Some,
            out@.len() == i / 2,
            forall|k: int| 0 <= k < out@.len() ==> #[trigger] out@[k] == unhex(b@)[k],
        decreases b.len() - i,
    {
        let hi = match value(b[i]) {
            Some(n) => n,
            None => return None,
        };
        let lo = match value(b[i + 1]) {
            Some(n) => n,
            None => return None,
        };
        out.push(hi * 16 + lo);
        i += 2;
    }
    proof {
        assert(out@ =~= unhex(b@));
    }
    Some(out)
}

/// Reading what was written in hexadecimal gives back the bytes.
pub proof fn law_hex_round_trip(bytes: Seq<u8>)
    ensures
        is_hex(vstd::utf8::encode_utf8(hex_of(bytes))),
        unhex(vstd::utf8::encode_utf8(hex_of(bytes))) == bytes,
{
    let text = hex_of(bytes);
    assert(vstd::utf8::is_ascii_chars(text));
    vstd::utf8::is_ascii_chars_encode_utf8(text);
    let raw = vstd::utf8::encode_utf8(text);
    assert forall|i: int| 0 <= i < raw.len() implies hex_value(#[trigger] raw[i]) == Some(
        (if i % 2 == 0 {
            bytes[i / 2] / 16
        } else {
            bytes[i / 2] % 16
        }) as u8,
    ) by {
        assert(raw[i] == text[i] as u8);
    }
    assert forall|i: int| 0 <= i < bytes.len() implies unhex(raw)[i] == bytes[i] by {
        assert(hex_value(raw[2 * i]) == Some((bytes[i] / 16) as u8));
        assert(hex_value(raw[2 * i + 1]) == Some((bytes[i] % 16) as u8));
    }
    assert(unhex(raw) =~= bytes);
}

/// `std::str::from_utf8`: the text that the bytes encode, where they are valid UTF-8.
#[verifier::external_body]
pub(crate) fn utf8_text(bytes: &[u8]) -> (r: Option<String>)
    ensures
        match r {
            Some(text) => vstd::utf8::encode_utf8(text@) == bytes@,
            None => !vstd::utf8::valid_utf8(bytes@),
        },
{
    std::str::from_utf8(bytes).ok().map(|s| s.to_string())
}

/// How a path is written.
pub open spec fn is_written(path: Seq<u8>, repr: PathRepr) -> bool {
    match repr {
        PathRepr::Text(text) => vstd::utf8::encode_utf8(text@) == path,
        PathRepr::Hex(digits) => !vstd::utf8::valid_utf8(path) && digits@ == hex_of(path),
    }
}

/// Write a path: as plain text where it is that, otherwise in hexadecimal.
pub fn serialize(path: &[u8]) -> (r: PathRepr)
    ensures
        is_written(path@, r),
{
    match utf8_text(path) {
        Some(text) => PathRepr::Text(text),
        None => PathRepr::Hex(to_hex(path)),
    }
}

/// The path that `repr` stands for, if it stands for one.
pub open spec fn path_of(repr: PathRepr) -> Option<Seq<u8>> {
    match repr {
        PathRepr::Text(text) => Some(vstd::utf8::encode_utf8(text@)),
        PathRepr::Hex(digits) => if is_hex(vstd::utf8::encode_utf8(digits@)) {
            Some(unhex(vstd::utf8::encode_utf8(digits@)))
        } else {
            None
        },
    }
}

/// Read a path back.
pub fn deserialize(repr: &PathRepr) -> (r: Result<Vec<u8>, PathError>)
    ensures
        match r {
            Ok(path) => path_of(*repr) == Some(path@),
            Err(e) => {
                &&& path_of(*repr) is None
                &&& repr matches PathRepr::Hex(digits)
                &&& e matches PathError::Malformed(why)
                &&& why@ == "malformed hex path: "@ + quoted(digits@)
            },
        },
{
    match repr {
        PathRepr::Text(text) => Ok(copy_bytes(text.as_str().as_bytes())),
        PathRepr::Hex(digits) => match from_hex(digits.as_str()) {
            Some(bytes) => Ok(bytes),
            None => {
                let q = quote(digits.as_str());
                Err(PathError::Malformed(cat2("malformed hex path: ", q.as_str())))
            },
        },
    }
}

/// The last pair whose key is the one for digits, and the first that has another key or malformed
/// digits, decide what a table stands for.
pub open spec fn first_odd(entries: Seq<(String, String)>, i: int) -> int
    decreases entries.len() - i,
{
    if i < 0 || i >= entries.len() || entries[i].0@ != "hex"@ || !is_hex(
        vstd::utf8::encode_utf8(entries[i].1@),
    ) {
        i
    } else {
        first_odd(entries, i + 1)
    }
}

/// Read a path back from a table of keys and values.
pub fn read_map(entries: &Vec<(String, String)>) -> (r: Result<Vec<u8>, PathError>)
    ensures
        ({
            let k = first_odd(entries@, 0);
            if k < entries@.len() {
                if entries@[k].0@ == "hex"@ {
                    r matches Err(PathError::Malformed(why)) && why@ == "malformed hex path: "@
                        + quoted(entries@[k].1@)
                } else {
                    r matches Err(PathError::Unknown(key)) && key@ == entries@[k].0@
                }
            } else if entries@.len() == 0 {
                r matches Err(PathError::Missing)
            } else {
                r matches Ok(path) && path@ == unhex(
                    vstd::utf8::encode_utf8(entries@.last().1@),
                )
            }
        }),
{
    let mut found: Option<Vec<u8>> = None;
    let mut i: usize = 0;
    while i < entries.len()
        invariant
            i <= entries@.len(),
            first_odd(entries@, 0) == first_odd(entries@, i as int),
            i == 0 ==> found is None,
            i > 0 ==> (found matches Some(path) && path@ == unhex(
                vstd::utf8::encode_utf8(entries@[i - 1].1@),
            )),
        decreases entries.len() - i,
    {
        let key = &entries[i].0;
        let text = &entries[i].1;
        if *key != String::from_str("hex") {
            return Err(PathError::Unknown(key.clone()));
        }
        match from_hex(text.as_str()) {
            Some(bytes) => {
                found = Some(bytes);
            },
            None => {
                let q = quote(text.as_str());
                return Err(PathError::Malformed(cat2("malformed hex path: ", q.as_str())));
            },
        }
        i += 1;
    }
    match found {
        Some(bytes) => Ok(bytes),
        None => Err(PathError::Missing),
    }
}

/// Every path survives being written and read, whatever bytes it is made of.
pub proof fn law_paths_round_trip(path: Seq<u8>, repr: PathRepr)
    requires
        is_written(path, repr),
    ensures
        path_of(repr) == Some(path),
{
    law_hex_round_trip(path);
}

} // verus!
