//! Numbers as bytes, the lowest first.

use vstd::prelude::*;

verus! {

/// The lowest `n` bytes of a number, the lowest first.
pub open spec fn le_bytes(x: nat, n: nat) -> Seq<u8>
    decreases n,
{
    if n == 0 {
        Seq::empty()
    } else {
        seq![(x % 256) as u8] + le_bytes(x / 256, (n - 1) as nat)
    }
}

/// The number that some bytes stand for, the lowest first.
pub open spec fn le_value(s: Seq<u8>) -> nat
    decreases s.len(),
{
    if s.len() == 0 {
        0
    } else {
        s[0] as nat + 256 * le_value(s.drop_first())
    }
}

/// How many numbers fit in `n` bytes.
pub open spec fn le_range(n: nat) -> nat
    decreases n,
{
    if n == 0 {
        1
    } else {
        256 * le_range((n - 1) as nat)
    }
}

pub proof fn lemma_le_ranges()
    ensures
        le_range(1) == 0x100,
        le_range(2) == 0x1_0000,
        le_range(4) == 0x1_0000_0000,
        le_range(8) == 0x1_0000_0000_0000_0000,
{
    reveal_with_fuel(le_range, 9);
}

pub proof fn lemma_le_len(x: nat, n: nat)
    ensures
        le_bytes(x, n).len() == n,
    decreases n,
{
    if n > 0 {
        lemma_le_len(x / 256, (n - 1) as nat);
    }
}

/// A number that fits in `n` bytes comes back from them.
pub proof fn law_numbers_round_trip(x: nat, n: nat)
    requires
        x < le_range(n),
    ensures
        le_bytes(x, n).len() == n,
        le_value(le_bytes(x, n)) == x,
    decreases n,
{
    lemma_le_len(x, n);
    if n > 0 {
        let rest = le_bytes(x / 256, (n - 1) as nat);
        law_numbers_round_trip(x / 256, (n - 1) as nat);
        assert(le_bytes(x, n).drop_first() =~= rest);
    }
}

pub proof fn lemma_le_value_bound(s: Seq<u8>)
    ensures
        le_value(s) < le_range(s.len()),
    decreases s.len(),
{
    if s.len() > 0 {
        lemma_le_value_bound(s.drop_first());
    }
}

/// Appends the lowest `n` bytes of `x`.
pub fn push_le(out: &mut Vec<u8>, x: u64, n: usize)
    ensures
        final(out)@ == old(out)@ + le_bytes(x as nat, n as nat),
{
    let mut left: u64 = x;
    let mut k: usize = n;
    let ghost start = out@;
    proof {
        assert(out@ + le_bytes(x as nat, n as nat) =~= start + le_bytes(x as nat, n as nat));
    }
    while k > 0
        invariant
            out@ + le_bytes(left as nat, k as nat) == start + le_bytes(x as nat, n as nat),
        decreases k,
    {
        let ghost before = out@;
        out.push((left % 256) as u8);
        proof {
            let rest = le_bytes((left / 256) as nat, (k - 1) as nat);
            assert(before + (seq![(left % 256) as u8] + rest) =~= out@ + rest);
        }
        left = left / 256;
        k -= 1;
    }
    proof {
        assert(out@ + Seq::<u8>::empty() =~= out@);
    }
}

/// Reads `n` bytes from `at` on as a number.
pub fn read_le(b: &[u8], at: usize, n: usize) -> (r: u64)
    requires
        at + n <= b@.len(),
        n <= 8,
    ensures
        r == le_value(b@.subrange(at as int, at + n)),
        r < le_range(n as nat),
{
    let mut v: u64 = 0;
    let mut i: usize = n;
    proof {
        assert(b@.subrange(at + n, at + n) =~= Seq::<u8>::empty());
        assert(b@.len() == b.len());
    }
    while i > 0
        invariant
            i <= n <= 8,
            at + n <= b@.len() <= usize::MAX,
            v == le_value(b@.subrange(at + i, at + n)),
        decreases i,
    {
        proof {
            let s = b@.subrange(at + i - 1, at + n);
            assert(s.drop_first() =~= b@.subrange(at + i, at + n));
            lemma_le_value_bound(s);
            lemma_le_range_grows((n - i + 1) as nat, 8);
            lemma_le_ranges();
        }
        v = b[at + i - 1] as u64 + 256 * v;
        i -= 1;
    }
    proof {
        lemma_le_value_bound(b@.subrange(at as int, at + n));
    }
    v
}

proof fn lemma_le_range_grows(a: nat, b: nat)
    requires
        a <= b,
    ensures
        0 < le_range(a) <= le_range(b),
    decreases b,
{
    if a < b {
        lemma_le_range_grows(a, (b - 1) as nat);
    } else if a > 0 {
        lemma_le_range_grows((a - 1) as nat, (a - 1) as nat);
    }
}

/// The low bytes of a number come first.
pub proof fn law_low_bytes_come_first(x: nat, n: nat, k: int)
    requires
        0 <= k < n,
    ensures
        le_bytes(x, n).len() == n,
        le_bytes(x, n)[0] == x % 256,
        k > 0 ==> le_bytes(x, n)[k] == le_bytes(x / 256, (n - 1) as nat)[k - 1],
{
    lemma_le_len(x, n);
    lemma_le_len(x / 256, (n - 1) as nat);
}

} // verus!
