//! Names of entries in messages: quoted, with everything that cannot be shown escaped.

use vstd::prelude::*;
use vstd::utf8::{
    decode_first_scalar, encode_utf8, encode_utf8_first_scalar, length_of_first_scalar,
    pop_first_scalar, valid_first_scalar, valid_utf8,
};

use crate::plan::path_repr::{hex_char, hex_digit, utf8_text};
use crate::text::cat3;

verus! {

/// A byte that stands for itself where it is a plain printable character, and escaped where it is
/// not.
pub open spec fn byte_text(b: u8) -> Seq<char> {
    if b == 9 {
        seq!['\\', 't']
    } else if b == 10 {
        seq!['\\', 'n']
    } else if b == 13 {
        seq!['\\', 'r']
    } else if b == 34 || b == 39 || b == 92 {
        seq!['\\', b as char]
    } else if 32 <= b < 127 {
        seq![b as char]
    } else {
        seq!['\\', 'x', hex_char((b / 16) as nat), hex_char((b % 16) as nat)]
    }
}

/// What `char::escape_debug` makes of a character: itself where it can be shown.
pub uninterp spec fn escaped(c: char) -> Seq<char>;

/// `char::escape_debug`: the escape code of a character, as its `Debug` form has it. The contract
/// claims that it is a function of the character alone.
#[verifier::external_body]
fn escape(c: char) -> (r: String)
    ensures
        r@ == escaped(c),
{
    c.escape_debug().to_string()
}

/// Some bytes of a name: characters as far as they are UTF-8, and bytes where they are not.
pub open spec fn bytes_text(bytes: Seq<u8>) -> Seq<char>
    decreases bytes.len(),
{
    if bytes.len() == 0 {
        Seq::empty()
    } else if bytes[0] >= 0x80 && valid_first_scalar(bytes) {
        escaped(decode_first_scalar(bytes) as char) + bytes_text(
            bytes.skip(length_of_first_scalar(bytes)),
        )
    } else {
        byte_text(bytes[0]) + bytes_text(bytes.skip(1))
    }
}

/// A name in a message.
pub open spec fn name_text(name: Seq<u8>) -> Seq<char> {
    seq!['"'] + bytes_text(name) + seq!['"']
}

fn push_byte(out: &mut String, b: u8)
    ensures
        final(out)@ == old(out)@ + byte_text(b),
{
    let ghost before = out@;
    if b == 9 {
        out.push('\\');
        out.push('t');
    } else if b == 10 {
        out.push('\\');
        out.push('n');
    } else if b == 13 {
        out.push('\\');
        out.push('r');
    } else if b == 34 || b == 39 || b == 92 {
        out.push('\\');
        out.push(b as char);
    } else if 32 <= b && b < 127 {
        out.push(b as char);
    } else {
        out.push('\\');
        out.push('x');
        out.push(hex_digit(b / 16));
        out.push(hex_digit(b % 16));
    }
    proof {
        assert(out@ =~= before + byte_text(b));
    }
}

/// The character of more than one byte that starts at `i`, and its length, if one does.
fn wide_char_at(name: &[u8], i: usize) -> (r: Option<(char, usize)>)
    requires
        i < name@.len(),
    ensures
        ({
            let rest = name@.skip(i as int);
            match r {
                Some((c, n)) => {
                    &&& rest[0] >= 0x80
                    &&& valid_first_scalar(rest)
                    &&& c == decode_first_scalar(rest) as char
                    &&& n == length_of_first_scalar(rest)
                    &&& 0 < n <= rest.len()
                },
                None => !(rest[0] >= 0x80 && valid_first_scalar(rest)),
            }
        }),
{
    let ghost rest = name@.skip(i as int);
    let b: u8 = name[i];
    let n: usize = if 0xc0 <= b && b <= 0xdf {
        2
    } else if 0xe0 <= b && b <= 0xef {
        3
    } else if 0xf0 <= b && b <= 0xf7 {
        4
    } else {
        return None;
    };
    if n > name.len() - i {
        return None;
    }
    let part = vstd::slice::slice_subrange(name, i, i + n);
    proof {
        assert(part@ =~= rest.take(n as int));
        lemma_first_of(rest, n as int);
    }
    match utf8_text(part) {
        Some(text) => {
            proof {
                if text@.len() == 0 {
                    assert(encode_utf8(text@).len() == 0);
                }
                encode_utf8_first_scalar(text@);
                vstd::utf8::char_u32_cast(text@[0], decode_first_scalar(rest));
            }
            Some((text.as_str().get_char(0), n))
        },
        None => None,
    }
}

/// Whether a character starts some bytes shows in as many of them as its first byte asks for.
proof fn lemma_first_of(rest: Seq<u8>, n: int)
    requires
        2 <= n <= rest.len(),
        n <= 4,
        n == 2 ==> 0xc0 <= rest[0] <= 0xdf,
        n == 3 ==> 0xe0 <= rest[0] <= 0xef,
        n == 4 ==> 0xf0 <= rest[0] <= 0xf7,
    ensures
        valid_first_scalar(rest.take(n)) == valid_first_scalar(rest),
        decode_first_scalar(rest.take(n)) == decode_first_scalar(rest),
        length_of_first_scalar(rest) == n,
        valid_first_scalar(rest) ==> valid_utf8(rest.take(n)),
{
    let part = rest.take(n);
    assert(part[0] == rest[0] && part[1] == rest[1]);
    assert(n >= 3 ==> part[2] == rest[2]);
    assert(n >= 4 ==> part[3] == rest[3]);
    if valid_first_scalar(rest) {
        let tail = pop_first_scalar(part);
        assert(tail.len() == 0);
        assert(valid_utf8(tail));
    }
}

pub(crate) fn name_string(name: &[u8]) -> (r: String)
    ensures
        r@ == name_text(name@),
{
    let mut out = String::new();
    out.push('"');
    let mut i: usize = 0;
    proof {
        assert(name@.skip(0) =~= name@);
    }
    while i < name.len()
        invariant
            i <= name@.len(),
            out@ + bytes_text(name@.skip(i as int)) == seq!['"'] + bytes_text(name@),
        decreases name.len() - i,
    {
        let ghost rest = name@.skip(i as int);
        let ghost before = out@;
        match wide_char_at(name, i) {
            Some((c, n)) => {
                let text = escape(c);
                out.append(text.as_str());
                proof {
                    assert(rest.skip(n as int) =~= name@.skip(i + n));
                    assert(out@ + bytes_text(name@.skip(i + n)) =~= before + bytes_text(rest));
                }
                i = i + n;
            },
            None => {
                let b: u8 = name[i];
                push_byte(&mut out, b);
                proof {
                    assert(rest.skip(1) =~= name@.skip(i + 1));
                    assert(out@ + bytes_text(name@.skip(i + 1)) =~= before + bytes_text(rest));
                }
                i = i + 1;
            },
        }
    }
    out.push('"');
    proof {
        assert(bytes_text(name@.skip(i as int)) =~= Seq::<char>::empty());
        assert(out@ =~= name_text(name@));
    }
    out
}

/// `what`, the name, a colon and the error.
pub(crate) fn about(what: &str, name: &[u8], e: &str) -> (r: String)
    ensures
        r@ == what@ + name_text(name@) + ": "@ + e@,
{
    let q = name_string(name);
    let mut text = cat3(what, q.as_str(), ": ");
    text.append(e);
    text
}

/// How a byte of a name is told: as it is where it can be seen, but for quotes and the backslash, and
/// spelled where it cannot.
pub proof fn law_how_a_byte_is_told(b: u8, rest: Seq<u8>)
    requires
        b < 0x80,
    ensures
        bytes_text(seq![b] + rest) == byte_text(b) + bytes_text(rest),
        b == 9 ==> byte_text(b) == seq!['\\', 't'],
        b == 10 ==> byte_text(b) == seq!['\\', 'n'],
        b == 13 ==> byte_text(b) == seq!['\\', 'r'],
        b == 34 || b == 39 || b == 92 ==> byte_text(b) == seq!['\\', b as char],
        32 <= b < 127 && b != 34 && b != 39 && b != 92 ==> byte_text(b) == seq![b as char],
        b < 32 && b != 9 && b != 10 && b != 13 || b == 127 ==> byte_text(b) == seq![
            '\\',
            'x',
            hex_char((b / 16) as nat),
            hex_char((b % 16) as nat),
        ],
        name_text(rest) == seq!['"'] + bytes_text(rest) + seq!['"'],
        bytes_text(Seq::empty()) == Seq::<char>::empty(),
{
    let all = seq![b] + rest;
    assert(all[0] == b);
    assert(all.skip(1) =~= rest);
}

} // verus!
