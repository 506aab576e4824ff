//! Products too large for a machine number.

use vstd::prelude::*;

verus! {

/// One more than the largest digit.
pub open spec fn base() -> nat {
    0x1_0000_0000_0000_0000
}

/// The number that some digits stand for, the lowest first.
pub open spec fn value(digits: Seq<u64>) -> nat
    decreases digits.len(),
{
    if digits.len() == 0 {
        0
    } else {
        digits[0] as nat + base() * value(digits.drop_first())
    }
}

/// A natural number of any size.
#[derive(Debug)]
pub struct Big {
    pub digits: Vec<u64>,
}

impl View for Big {
    type V = nat;

    open spec fn view(&self) -> nat {
        value(self.digits@)
    }
}

proof fn lemma_value_push(s: Seq<u64>, d: u64)
    ensures
        value(s.push(d)) == value(s) + power(s.len()) * d as nat,
    decreases s.len(),
{
    if s.len() == 0 {
        assert(s.push(d).drop_first() =~= Seq::<u64>::empty());
        assert(value(s.push(d).drop_first()) == 0);
        let x = d as nat;
        assert(base() * 0 == 0) by (nonlinear_arith);
        assert(1 * x == x) by (nonlinear_arith);
    } else {
        lemma_value_push(s.drop_first(), d);
        assert(s.push(d).drop_first() =~= s.drop_first().push(d));
        let v = value(s.drop_first());
        let p = power((s.len() - 1) as nat);
        let x = d as nat;
        assert(base() * (v + p * x) == base() * v + (base() * p) * x) by (nonlinear_arith);
    }
}

/// The weight of the digit after the first `n`.
pub open spec fn power(n: nat) -> nat
    decreases n,
{
    if n == 0 {
        1
    } else {
        base() * power((n - 1) as nat)
    }
}

/// Whether the digits of `a` from `n` on, where it has any, are those of `b`.
spec fn agree_from(a: Seq<u64>, b: Seq<u64>, n: int) -> bool {
    forall|i: int| n <= i ==> #[trigger] digit_at(a, i) == digit_at(b, i)
}

spec fn digit_at(a: Seq<u64>, i: int) -> u64 {
    if 0 <= i < a.len() {
        a[i]
    } else {
        0
    }
}

/// The number that the first `n` digits stand for.
spec fn value_below(a: Seq<u64>, n: int) -> nat
    decreases n,
{
    if n <= 0 {
        0
    } else {
        value_below(a, n - 1) + power((n - 1) as nat) * digit_at(a, n - 1) as nat
    }
}

proof fn lemma_value_below(a: Seq<u64>, n: int)
    requires
        0 <= n <= a.len(),
    ensures
        value_below(a, n) == value(a.take(n)),
    decreases n,
{
    if n > 0 {
        lemma_value_below(a, n - 1);
        assert(a.take(n) =~= a.take(n - 1).push(a[n - 1]));
        lemma_value_push(a.take(n - 1), a[n - 1]);
    } else {
        assert(a.take(0) =~= Seq::<u64>::empty());
    }
}

proof fn lemma_value_above(a: Seq<u64>, n: int)
    requires
        a.len() <= n,
    ensures
        value_below(a, n) == value(a),
    decreases n,
{
    if n > a.len() {
        lemma_value_above(a, n - 1);
        assert(power((n - 1) as nat) * 0 == 0) by (nonlinear_arith);
    } else {
        lemma_value_below(a, n);
        assert(a.take(n) =~= a);
    }
}

proof fn lemma_below_bound(a: Seq<u64>, n: int)
    requires
        0 <= n,
    ensures
        value_below(a, n) < power(n as nat),
    decreases n,
{
    if n > 0 {
        lemma_below_bound(a, n - 1);
        let d = digit_at(a, n - 1) as nat;
        let p = power((n - 1) as nat);
        assert(p + p * d <= base() * p) by (nonlinear_arith)
            requires
                d + 1 <= base(),
        ;
    }
}

/// A larger digit outweighs everything below it.
proof fn lemma_less(a: Seq<u64>, b: Seq<u64>, i: int, n: int)
    requires
        0 <= i < n,
        digit_at(a, i) < digit_at(b, i),
        agree_from(a, b, i + 1),
    ensures
        value_below(a, n) < value_below(b, n),
    decreases n,
{
    if n == i + 1 {
        lemma_below_bound(a, i);
        let p = power(i as nat);
        let x = digit_at(a, i) as nat;
        let y = digit_at(b, i) as nat;
        assert(p * x + p <= p * y) by (nonlinear_arith)
            requires
                x + 1 <= y,
        ;
    } else {
        lemma_less(a, b, i, n - 1);
        assert(digit_at(a, n - 1) == digit_at(b, n - 1));
    }
}

proof fn lemma_equal(a: Seq<u64>, b: Seq<u64>, n: int)
    requires
        agree_from(a, b, 0),
    ensures
        value_below(a, n) == value_below(b, n),
    decreases n,
{
    if n > 0 {
        lemma_equal(a, b, n - 1);
        assert(digit_at(a, n - 1) == digit_at(b, n - 1));
    }
}

impl Big {
    pub fn of(x: u128) -> (r: Big)
        ensures
            r@ == x,
    {
        let mut digits: Vec<u64> = Vec::new();
        let low: u64 = (x % 0x1_0000_0000_0000_0000) as u64;
        let high: u64 = (x / 0x1_0000_0000_0000_0000) as u64;
        digits.push(low);
        digits.push(high);
        proof {
            let s = digits@;
            assert(s.drop_first().drop_first() =~= Seq::<u64>::empty());
            assert(value(s.drop_first().drop_first()) == 0);
            assert(value(s.drop_first()) == high as nat + base() * 0);
            assert(value(s) == low as nat + base() * high as nat);
        }
        Big { digits }
    }

    /// The number times one digit, and something more.
    fn scaled(&self, m: u64, more: u64) -> (r: Big)
        ensures
            r@ == self@ * m as nat + more as nat,
    {
        let mut out: Vec<u64> = Vec::new();
        let mut carry: u64 = more;
        let mut i: usize = 0;
        let ghost s = self.digits@;
        proof {
            assert(s.take(0) =~= Seq::<u64>::empty());
            assert(power(0) * more as nat == more as nat) by (nonlinear_arith)
                requires
                    power(0) == 1,
            ;
            assert(0 * m as nat == 0) by (nonlinear_arith);
        }
        while i < self.digits.len()
            invariant
                i <= s.len(),
                s == self.digits@,
                out@.len() == i,
                value(out@) + power(i as nat) * carry as nat == value(s.take(i as int)) * m as nat
                    + more as nat,
            decreases self.digits.len() - i,
        {
            let d: u64 = self.digits[i];
            proof {
                assert(d as int * m as int + carry as int <= 0xffff_ffff_ffff_ffff
                    * 0xffff_ffff_ffff_ffff + 0xffff_ffff_ffff_ffff) by (nonlinear_arith)
                    requires
                        0 <= d as int <= 0xffff_ffff_ffff_ffff,
                        0 <= m as int <= 0xffff_ffff_ffff_ffff,
                        0 <= carry as int <= 0xffff_ffff_ffff_ffff,
                ;
                assert(d as int * m as int >= 0) by (nonlinear_arith)
                    requires
                        0 <= d as int,
                        0 <= m as int,
                ;
            }
            let full: u128 = d as u128 * m as u128 + carry as u128;
            let low: u64 = (full % 0x1_0000_0000_0000_0000) as u64;
            let high: u64 = (full / 0x1_0000_0000_0000_0000) as u64;
            let ghost before = out@;
            out.push(low);
            proof {
                let p = power(i as nat);
                let v = value(s.take(i as int));
                lemma_value_push(before, low);
                assert(s.take(i + 1) =~= s.take(i as int).push(d));
                lemma_value_push(s.take(i as int), d);
                assert(full as nat == low as nat + base() * high as nat);
                assert(p * (low as nat + base() * high as nat) == p * low as nat + (base() * p)
                    * high as nat) by (nonlinear_arith);
                assert(p * (d as nat * m as nat + carry as nat) == (p * d as nat) * m as nat + p
                    * carry as nat) by (nonlinear_arith);
                assert((v + p * d as nat) * m as nat == v * m as nat + (p * d as nat) * m as nat)
                    by (nonlinear_arith);
                assert(power((i + 1) as nat) == base() * p);
            }
            carry = high;
            i += 1;
        }
        let ghost before = out@;
        out.push(carry);
        proof {
            lemma_value_push(before, carry);
            assert(s.take(i as int) =~= s);
        }
        Big { digits: out }
    }

    /// The number times the base.
    fn raised(&self) -> (r: Big)
        ensures
            r@ == base() * self@,
    {
        let mut out: Vec<u64> = Vec::new();
        out.push(0);
        let mut i: usize = 0;
        while i < self.digits.len()
            invariant
                i <= self.digits@.len(),
                out@ == seq![0u64] + self.digits@.take(i as int),
            decreases self.digits.len() - i,
        {
            out.push(self.digits[i]);
            proof {
                assert(self.digits@.take(i + 1) =~= self.digits@.take(i as int).push(
                    self.digits@[i as int],
                ));
            }
            i += 1;
        }
        proof {
            assert(self.digits@.take(i as int) =~= self.digits@);
            assert(out@.drop_first() =~= self.digits@);
        }
        Big { digits: out }
    }

    pub fn plus(&self, other: &Big) -> (r: Big)
        ensures
            r@ == self@ + other@,
    {
        let mut out: Vec<u64> = Vec::new();
        let mut carry: u64 = 0;
        let n: usize = if self.digits.len() > other.digits.len() {
            self.digits.len()
        } else {
            other.digits.len()
        };
        let ghost a = self.digits@;
        let ghost b = other.digits@;
        let mut i: usize = 0;
        proof {
            assert(power(0) * 0 == 0);
        }
        while i < n
            invariant
                i <= n,
                a == self.digits@,
                b == other.digits@,
                out@.len() == i,
                carry <= 1,
                value(out@) + power(i as nat) * carry as nat == value_below(a, i as int)
                    + value_below(b, i as int),
            decreases n - i,
        {
            let x: u64 = if i < self.digits.len() {
                self.digits[i]
            } else {
                0
            };
            let y: u64 = if i < other.digits.len() {
                other.digits[i]
            } else {
                0
            };
            let full: u128 = x as u128 + y as u128 + carry as u128;
            let low: u64 = (full % 0x1_0000_0000_0000_0000) as u64;
            let high: u64 = (full / 0x1_0000_0000_0000_0000) as u64;
            let ghost before = out@;
            out.push(low);
            proof {
                let p = power(i as nat);
                lemma_value_push(before, low);
                assert(x == digit_at(a, i as int));
                assert(y == digit_at(b, i as int));
                assert(full as nat == low as nat + base() * high as nat);
                assert(p * (low as nat + base() * high as nat) == p * low as nat + (base() * p)
                    * high as nat) by (nonlinear_arith);
                assert(p * (x as nat + y as nat + carry as nat) == p * x as nat + p * y as nat + p
                    * carry as nat) by (nonlinear_arith);
                assert(power((i + 1) as nat) == base() * p);
            }
            carry = high;
            i += 1;
        }
        let ghost before = out@;
        out.push(carry);
        proof {
            lemma_value_push(before, carry);
            lemma_value_above(a, n as int);
            lemma_value_above(b, n as int);
        }
        Big { digits: out }
    }

    pub fn times(&self, other: &Big) -> (r: Big)
        ensures
            r@ == self@ * other@,
    {
        let mut acc = Big { digits: Vec::new() };
        let mut i: usize = other.digits.len();
        let ghost b = other.digits@;
        proof {
            assert(b.skip(i as int) =~= Seq::<u64>::empty());
            assert(self@ * 0 == 0) by (nonlinear_arith);
        }
        while i > 0
            invariant
                i <= b.len(),
                b == other.digits@,
                acc@ == self@ * value(b.skip(i as int)),
            decreases i,
        {
            let d: u64 = other.digits[i - 1];
            let raised = acc.raised();
            let part = self.scaled(d, 0);
            proof {
                let s = b.skip(i - 1);
                assert(s.drop_first() =~= b.skip(i as int));
                let v = value(b.skip(i as int));
                let x = self@;
                assert(base() * (x * v) + x * d as nat == x * (d as nat + base() * v))
                    by (nonlinear_arith);
            }
            acc = raised.plus(&part);
            i -= 1;
        }
        proof {
            assert(b.skip(0) =~= b);
        }
        acc
    }

    pub fn is_less(&self, other: &Big) -> (r: bool)
        ensures
            r == (self@ < other@),
    {
        let n: usize = if self.digits.len() > other.digits.len() {
            self.digits.len()
        } else {
            other.digits.len()
        };
        let ghost a = self.digits@;
        let ghost b = other.digits@;
        let mut i: usize = n;
        proof {
            lemma_value_above(a, n as int);
            lemma_value_above(b, n as int);
        }
        while i > 0
            invariant
                i <= n,
                a == self.digits@,
                b == other.digits@,
                agree_from(a, b, i as int),
                value_below(a, n as int) == value(a),
                value_below(b, n as int) == value(b),
            decreases i,
        {
            let x: u64 = if i - 1 < self.digits.len() {
                self.digits[i - 1]
            } else {
                0
            };
            let y: u64 = if i - 1 < other.digits.len() {
                other.digits[i - 1]
            } else {
                0
            };
            proof {
                assert(x == digit_at(a, i - 1));
                assert(y == digit_at(b, i - 1));
            }
            if x < y {
                proof {
                    lemma_less(a, b, i - 1, n as int);
                }
                return true;
            }
            if y < x {
                proof {
                    lemma_less(b, a, i - 1, n as int);
                }
                return false;
            }
            i -= 1;
        }
        proof {
            lemma_equal(a, b, n as int);
        }
        false
    }
}

} // verus!
