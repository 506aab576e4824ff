//! Building text: decimal numbers, padding, and paths shown to a person.

use vstd::prelude::*;

verus! {

/// `String::push`: appends one character.
pub assume_specification[ String::push ](s: &mut String, c: char)
    ensures
        final(s)@ == old(s)@.push(c),
;

/// The character for one decimal digit.
pub open spec fn digit(d: nat) -> char
    recommends
        d < 10,
{
    (48 + d) as char
}

/// A number written in decimal, without padding.
pub open spec fn dec(n: nat) -> Seq<char>
    decreases n,
{
    if n < 10 {
        seq![digit(n)]
    } else {
        dec(n / 10).push(digit(n % 10))
    }
}

/// The number that some decimal digits stand for.
pub open spec fn read_dec(s: Seq<char>) -> int
    decreases s.len(),
{
    if s.len() == 0 {
        0
    } else {
        10 * read_dec(s.drop_last()) + (s.last() as int - 48)
    }
}

/// What is written can be read back.
pub(crate) proof fn lemma_dec_value(n: nat)
    ensures
        read_dec(dec(n)) == n,
    decreases n,
{
    if n >= 10 {
        lemma_dec_value(n / 10);
        assert(dec(n).drop_last() =~= dec(n / 10));
    } else {
        assert(dec(n).drop_last() =~= Seq::<char>::empty());
        assert(read_dec(Seq::<char>::empty()) == 0);
    }
}

proof fn lemma_leading_zeros(zeros: nat, s: Seq<char>)
    ensures
        read_dec(repeat('0', zeros) + s) == read_dec(s),
    decreases zeros + s.len(),
{
    let all = repeat('0', zeros) + s;
    if s.len() > 0 {
        lemma_leading_zeros(zeros, s.drop_last());
        assert(all.drop_last() =~= repeat('0', zeros) + s.drop_last());
    } else if zeros > 0 {
        lemma_leading_zeros((zeros - 1) as nat, s);
        assert(all.drop_last() =~= repeat('0', (zeros - 1) as nat) + s);
    } else {
        assert(all =~= s);
    }
}

pub(crate) proof fn lemma_padded_value(n: nat, width: nat)
    ensures
        read_dec(pad_left(dec(n), '0', width)) == n,
{
    lemma_dec_value(n);
    if dec(n).len() < width {
        lemma_leading_zeros((width - dec(n).len()) as nat, dec(n));
    }
}

/// No two numbers are written alike.
pub(crate) proof fn lemma_dec_distinct(a: nat, b: nat)
    ensures
        dec(a) == dec(b) ==> a == b,
{
    lemma_dec_value(a);
    lemma_dec_value(b);
}

/// What a number is written with: at least one digit, and digits only.
pub(crate) proof fn lemma_dec_digits(n: nat)
    ensures
        dec(n).len() >= 1,
        forall|i: int| 0 <= i < dec(n).len() ==> '0' <= #[trigger] dec(n)[i] <= '9',
    decreases n,
{
    if n >= 10 {
        lemma_dec_digits(n / 10);
    }
}

/// `n` copies of `c`.
pub open spec fn repeat(c: char, n: nat) -> Seq<char> {
    Seq::new(n, |i: int| c)
}

/// `s` with `c` put in front until it is `width` long. Text that is already that long is kept.
pub open spec fn pad_left(s: Seq<char>, c: char, width: nat) -> Seq<char> {
    if s.len() >= width {
        s
    } else {
        repeat(c, (width - s.len()) as nat) + s
    }
}

/// `s` with spaces put behind until it is `width` long. Text that is already that long is kept.
pub open spec fn pad_right(s: Seq<char>, width: nat) -> Seq<char> {
    if s.len() >= width {
        s
    } else {
        s + repeat(' ', (width - s.len()) as nat)
    }
}

pub fn digit_char(d: u64) -> (r: char)
    requires
        d < 10,
    ensures
        r == digit(d as nat),
{
    let b: u8 = 48 + d as u8;
    b as char
}

/// Writes `n` in decimal.
pub fn decimal(n: u64) -> (r: String)
    ensures
        r@ == dec(n as nat),
    decreases n,
{
    if n < 10 {
        let mut s = String::new();
        s.push(digit_char(n));
        s
    } else {
        let mut s = decimal(n / 10);
        s.push(digit_char(n % 10));
        s
    }
}

/// Writes `n` in decimal with zeros in front until it is `width` long.
pub fn decimal_padded(n: u64, width: usize) -> (r: String)
    ensures
        r@ == pad_left(dec(n as nat), '0', width as nat),
{
    let digits = decimal(n);
    padded(digits.as_str(), '0', width)
}

/// `s` with `c` put in front until it is `width` long.
pub fn padded(s: &str, c: char, width: usize) -> (r: String)
    ensures
        r@ == pad_left(s@, c, width as nat),
{
    let len: usize = s.unicode_len();
    let mut out = String::new();
    let mut i: usize = len;
    while i < width
        invariant
            len == s@.len(),
            len <= i,
            i <= width || i == len,
            out@ == repeat(c, (i - len) as nat),
        decreases width - i,
    {
        out.push(c);
        i += 1;
    }
    out.append(s);
    out
}

/// `s` with spaces put behind until it is `width` long.
pub fn padded_right(s: &str, width: usize) -> (r: String)
    ensures
        r@ == pad_right(s@, width as nat),
{
    let len: usize = s.unicode_len();
    let mut out = String::from_str(s);
    if len < width {
        let tail = repeated(' ', width - len);
        out.append(tail.as_str());
    }
    out
}

/// `n` copies of `c`.
pub fn repeated(c: char, n: usize) -> (r: String)
    ensures
        r@ == repeat(c, n as nat),
{
    let mut out = String::new();
    let mut i: usize = 0;
    while i < n
        invariant
            i <= n,
            out@ == repeat(c, i as nat),
        decreases n - i,
    {
        out.push(c);
        i += 1;
    }
    out
}

/// What a byte string reads as when shown: its UTF-8 text, with U+FFFD where it is not UTF-8.
pub uninterp spec fn shown(bytes: Seq<u8>) -> Seq<char>;

/// `String::from_utf8_lossy`: the text of `bytes`, each maximal invalid part replaced by U+FFFD.
/// The contract claims that the result is a function of the bytes alone, and that it is exactly
/// their text where they are valid UTF-8.
#[verifier::external_body]
pub(crate) fn show(bytes: &[u8]) -> (r: String)
    ensures
        r@ == shown(bytes@),
        vstd::utf8::valid_utf8(bytes@) ==> vstd::utf8::encode_utf8(r@) == bytes@,
{
    String::from_utf8_lossy(bytes).into_owned()
}

/// What `{:?}` prints for a string: quoted and escaped.
pub uninterp spec fn quoted(s: Seq<char>) -> Seq<char>;

/// `format!` with `{:?}`, the `Debug` form of a string. The contract claims that it is a function
/// of the text alone.
#[verifier::external_body]
pub(crate) fn quote(s: &str) -> (r: String)
    ensures
        r@ == quoted(s@),
{
    format!("{:?}", s)
}

pub fn same_bytes(a: &[u8], b: &[u8]) -> (r: bool)
    ensures
        r == (a@ == b@),
{
    if a.len() != b.len() {
        return false;
    }
    let mut i: usize = 0;
    while i < a.len()
        invariant
            i <= a@.len(),
            a@.len() == b@.len(),
            forall|j: int| 0 <= j < i ==> a@[j] == b@[j],
        decreases a.len() - i,
    {
        if a[i] != b[i] {
            return false;
        }
        i += 1;
    }
    proof {
        assert(a@ =~= b@);
    }
    true
}

pub fn copy_bytes(a: &[u8]) -> (r: Vec<u8>)
    ensures
        r@ == a@,
{
    let mut out: Vec<u8> = Vec::new();
    out.extend_from_slice(a);
    proof {
        assert(out@ =~= a@);
    }
    out
}

pub fn cat2(a: &str, b: &str) -> (r: String)
    ensures
        r@ == a@ + b@,
{
    let mut s = String::from_str(a);
    s.append(b);
    s
}

pub fn cat3(a: &str, b: &str, c: &str) -> (r: String)
    ensures
        r@ == a@ + b@ + c@,
{
    let mut s = String::from_str(a);
    s.append(b);
    s.append(c);
    s
}

/// Whether a character is white space.
pub open spec fn is_space(c: char) -> bool {
    '\u{9}' <= c <= '\u{d}' || c == ' ' || c == '\u{85}' || c == '\u{a0}' || c == '\u{1680}'
        || '\u{2000}' <= c <= '\u{200a}' || c == '\u{2028}' || c == '\u{2029}' || c == '\u{202f}'
        || c == '\u{205f}' || c == '\u{3000}'
}

pub(crate) fn is_white(c: char) -> (r: bool)
    ensures
        r == is_space(c),
{
    ('\u{9}' <= c && c <= '\u{d}') || c == ' ' || c == '\u{85}' || c == '\u{a0}' || c == '\u{1680}'
        || ('\u{2000}' <= c && c <= '\u{200a}') || c == '\u{2028}' || c == '\u{2029}' || c
        == '\u{202f}' || c == '\u{205f}' || c == '\u{3000}'
}

/// A number is written with digits, and reads as itself; what is padded keeps its end and fills its
/// width.
pub proof fn law_numbers_read_as_they_are(n: nat, c: char, width: nat)
    ensures
        read_dec(dec(n)) == n,
        dec(n).len() > 0,
        n > 0 ==> dec(n)[0] != '0',
        forall|i: int| 0 <= i < dec(n).len() ==> '0' <= #[trigger] dec(n)[i] <= '9',
        pad_left(dec(n), c, width).len() == (if dec(n).len() < width {
            width
        } else {
            dec(n).len()
        }),
        pad_left(dec(n), c, width).skip(pad_left(dec(n), c, width).len() - dec(n).len()) == dec(n),
        pad_right(dec(n), width).take(dec(n).len() as int) == dec(n),
        pad_right(dec(n), width).len() == pad_left(dec(n), c, width).len(),
{
    lemma_dec_value(n);
    lemma_dec_digits(n);
    lemma_no_leading_zero(n);
    assert(pad_left(dec(n), c, width).skip(pad_left(dec(n), c, width).len() - dec(n).len()) =~= dec(
        n,
    ));
    assert(pad_right(dec(n), width).take(dec(n).len() as int) =~= dec(n));
}

proof fn lemma_no_leading_zero(n: nat)
    ensures
        n > 0 ==> dec(n)[0] != '0',
        dec(n).len() > 0,
    decreases n,
{
    if n >= 10 {
        lemma_no_leading_zero(n / 10);
        assert(dec(n)[0] == dec(n / 10)[0]);
    }
}

} // verus!
