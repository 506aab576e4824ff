//! What sizes, counts and dates are written as, told off the numbers.

use vstd::arithmetic::power2::pow2;
use vstd::prelude::*;

use crate::format::{
    as_double, day_number, days_before_month, double_step, grouped, is_date, is_leap, leap_days,
    lemma_date_of, percent_tenths, places, round_even, size_text, time_text, time_text_secs, two,
    unit_name, unit_of, unit_size, year_text,
};
use crate::plan::{hex_text, id_text};
use crate::text::{dec, lemma_dec_digits, lemma_dec_value, pad_left, read_dec};

verus! {

/// A quotient is rounded to the nearest whole number, and to the even one of two that are as near.
pub proof fn law_quotients_are_rounded_to_the_nearest(num: nat, den: nat)
    requires
        den > 0,
    ensures
        2 * (round_even(num, den) * den) <= 2 * num + den,
        2 * num <= 2 * (round_even(num, den) * den) + den,
        2 * (round_even(num, den) * den) == 2 * num + den || 2 * num == 2 * (round_even(num, den)
            * den) + den ==> round_even(num, den) % 2 == 0,
{
    let q = num / den;
    let r = num % den;
    vstd::arithmetic::div_mod::lemma_fundamental_div_mod(num as int, den as int);
    assert(num == den * q + r);
    assert(den * q == q * den) by (nonlinear_arith);
    assert((q + 1) * den == q * den + den) by (nonlinear_arith);
}

/// What is written is written in the largest unit that is not more than it.
pub proof fn law_the_largest_unit_that_fits(v: nat)
    ensures
        v < 1024 * unit_size(unit_of(v)),
        unit_of(v) > 0 ==> unit_size(unit_of(v)) <= v,
        unit_size(unit_of(v)) > 0,
    decreases v,
{
    if v >= 1024 {
        law_the_largest_unit_that_fits(v / 1024);
        let u = unit_of(v / 1024);
        assert(unit_of(v) == 1 + u);
        assert(unit_size(unit_of(v)) == 1024 * unit_size(u));
    }
}

/// The units, each a thousand and twenty-four of the one before.
pub proof fn law_the_units()
    ensures
        unit_name(0) == "B"@ && unit_size(0) == 1,
        unit_name(1) == "KiB"@ && unit_size(1) == 0x400,
        unit_name(2) == "MiB"@ && unit_size(2) == 0x10_0000,
        unit_name(3) == "GiB"@ && unit_size(3) == 0x4000_0000,
        unit_name(4) == "TiB"@ && unit_size(4) == 0x100_0000_0000,
        unit_name(5) == "PiB"@ && unit_size(5) == 0x4_0000_0000_0000,
        unit_name(6) == "EiB"@ && unit_size(6) == 0x1000_0000_0000_0000,
{
    reveal_with_fuel(unit_size, 8);
}

/// A number that a double can hold is held exactly.
pub proof fn law_small_numbers_are_exact(n: nat)
    requires
        n < 0x20_0000_0000_0000,
    ensures
        as_double(n) == n,
{
    assert(double_step(n) == 1);
    assert(n / 1 == n && n % 1 == 0);
    assert(round_even(n, 1) == n);
    assert(n * 1 == n);
}

/// A number that a double cannot hold is held as the nearest multiple of the least power of two that
/// leaves fifty-three bits.
pub proof fn law_large_numbers_are_nearly_exact(n: nat)
    ensures
        double_step(n) > 0,
        2 * as_double(n) <= 2 * n + double_step(n),
        2 * n <= 2 * as_double(n) + double_step(n),
        double_step(n) > 1 ==> double_step(n) * 0x10_0000_0000_0000 <= n,
        n < double_step(n) * 0x20_0000_0000_0000,
{
    lemma_step(n);
    law_quotients_are_rounded_to_the_nearest(n, double_step(n));
}

proof fn lemma_step(n: nat)
    ensures
        double_step(n) > 0,
        double_step(n) > 1 ==> double_step(n) * 0x10_0000_0000_0000 <= n,
        n < double_step(n) * 0x20_0000_0000_0000,
    decreases n,
{
    if n >= 0x20_0000_0000_0000 {
        lemma_step(n / 2);
    }
}

/// Below a kibibyte a size is written to the byte; from there on with one decimal, the nearest one, in
/// the largest unit that fits.
pub proof fn law_how_a_size_is_written(bytes: nat)
    requires
        bytes < 0x20_0000_0000_0000,
    ensures
        bytes < 1024 ==> size_text(bytes) == dec(bytes) + " B"@,
        bytes >= 1024 ==> exists|unit: nat, tenths: nat|
            {
                &&& #[trigger] unit_size(unit) <= bytes < 1024 * unit_size(unit)
                &&& 2 * (tenths * unit_size(unit)) <= 2 * (10 * bytes) + unit_size(unit)
                &&& 2 * (10 * bytes) <= 2 * (tenths * unit_size(unit)) + unit_size(unit)
                &&& size_text(bytes) == #[trigger] dec(tenths / 10) + "."@ + seq![
                    crate::text::digit(tenths % 10),
                ] + " "@ + unit_name(unit)
            },
{
    law_small_numbers_are_exact(bytes);
    law_the_largest_unit_that_fits(bytes);
    let unit = unit_of(bytes);
    if bytes >= 1024 {
        let tenths = round_even(10 * bytes, unit_size(unit));
        law_quotients_are_rounded_to_the_nearest(10 * bytes, unit_size(unit));
        assert(unit_size(unit) <= bytes < 1024 * unit_size(unit));
        assert(size_text(bytes) == dec(tenths / 10) + "."@ + seq![
            crate::text::digit(tenths % 10),
        ] + " "@ + unit_name(unit));
    }
}

/// What is left of a count without the blanks between its groups.
pub open spec fn without_blanks(s: Seq<char>) -> Seq<char> {
    s.filter(|c: char| c != ' ')
}

/// A count is written as its digits, with blanks between them and nothing else.
pub proof fn law_a_count_reads_as_its_number(n: nat)
    ensures
        read_dec(without_blanks(grouped(n))) == n,
    decreases n,
{
    let keep = |c: char| c != ' ';
    if n < 1000 {
        lemma_dec_digits(n);
        lemma_no_blanks(dec(n));
        lemma_dec_value(n);
    } else {
        law_a_count_reads_as_its_number(n / 1000);
        let tail = pad_left(dec(n % 1000), '0', 3);
        reveal_strlit(" ");
        assert(" "@ =~= seq![' ']);
        let front = grouped(n / 1000);
        Seq::filter_distributes_over_add(front + " "@, tail, keep);
        Seq::filter_distributes_over_add(front, " "@, keep);
        assert(" "@.filter(keep) =~= Seq::<char>::empty()) by {
            let none = Seq::<char>::empty();
            reveal_with_fuel(Seq::filter, 2);
            assert(seq![' '].drop_last() =~= none);
            assert(none.filter(keep) =~= none);
            assert(!keep(' '));
        }
        lemma_dec_digits(n % 1000);
        lemma_three_digits(n % 1000);
        lemma_no_blanks(tail);
        assert(without_blanks(grouped(n)) =~= without_blanks(front) + tail);
        lemma_read_on(without_blanks(front), tail);
        assert(n == 1000 * (n / 1000) + n % 1000);
    }
}

proof fn lemma_three_digits(n: nat)
    requires
        n < 1000,
    ensures
        pad_left(dec(n), '0', 3).len() == 3,
        read_dec(pad_left(dec(n), '0', 3)) == n,
        forall|k: int|
            0 <= k < 3 ==> '0' <= #[trigger] pad_left(dec(n), '0', 3)[k] <= '9',
{
    crate::text::lemma_padded_value(n, 3);
    lemma_dec_digits(n);
    reveal_with_fuel(dec, 4);
    assert(n / 10 / 10 < 10);
}

proof fn lemma_no_blanks(s: Seq<char>)
    requires
        forall|k: int| 0 <= k < s.len() ==> '0' <= #[trigger] s[k] <= '9',
    ensures
        s.filter(|c: char| c != ' ') == s,
    decreases s.len(),
{
    reveal(Seq::filter);
    if s.len() > 0 {
        let rest = s.drop_last();
        assert forall|k: int| 0 <= k < rest.len() implies '0' <= #[trigger] rest[k] <= '9' by {
            assert(rest[k] == s[k]);
        }
        lemma_no_blanks(rest);
        assert('0' <= s[s.len() - 1] <= '9');
        assert(rest.push(s.last()) =~= s);
    } else {
        assert(s =~= Seq::<char>::empty());
    }
}

proof fn lemma_read_on(a: Seq<char>, b: Seq<char>)
    requires
        b.len() == 3,
    ensures
        read_dec(a + b) == 1000 * read_dec(a) + read_dec(b),
{
    reveal_with_fuel(read_dec, 5);
    let c = a + b;
    assert(c.drop_last() =~= a + b.drop_last());
    assert(c.drop_last().drop_last() =~= a + b.drop_last().drop_last());
    assert(c.drop_last().drop_last().drop_last() =~= a);
    assert(b.drop_last().drop_last().drop_last() =~= Seq::<char>::empty());
}

/// The leap years: every fourth year, but for those of a century, and of those every fourth again.
pub proof fn law_the_leap_years(y: int)
    ensures
        is_leap(y) ==> y % 4 == 0,
        is_leap(y) && y % 100 == 0 ==> y % 400 == 0,
        y % 4 == 0 && y % 100 != 0 ==> is_leap(y),
        y % 4 == 0 && y % 400 == 0 ==> is_leap(y),
{
}

/// The day that days are counted from. One day follows another.
pub proof fn law_days_are_counted(y: int, m: int, d: int)
    ensures
        day_number(1970, 1, 1) == 0,
        day_number(y, m, d + 1) == day_number(y, m, d) + 1,
{
    assert(leap_days(1969) == 477);
}

/// One year follows another.
pub proof fn law_the_years(y: int)
    ensures
        day_number(y + 1, 1, 1) == day_number(y, 12, 31) + 1,
{
    crate::format::lemma_leap_step(y);
    assert(days_before_month(y + 1, 1) == 0);
}

/// How many days a month has.
pub open spec fn days_in(y: int, m: int) -> int {
    if m == 2 {
        if is_leap(y) {
            29
        } else {
            28
        }
    } else if m == 4 || m == 6 || m == 9 || m == 11 {
        30
    } else {
        31
    }
}

/// The months: each has as many days as it has, and the next begins behind the last of them.
pub proof fn law_the_months(y: int, m: int, d: int)
    ensures
        is_date(y, m, d) == (1 <= m <= 12 && 1 <= d <= days_in(y, m)),
        1 <= m < 12 ==> day_number(y, m + 1, 1) == day_number(y, m, days_in(y, m)) + 1,
{
    let leap: int = if is_leap(y) {
        1
    } else {
        0
    };
    assert(1 <= m <= 12 ==> days_before_month(y, m + 1) == days_before_month(y, m) + days_in(y, m));
}

proof fn lemma_scaled(num: nat, den: nat)
    requires
        num > 0,
        den > 0,
    ensures
        num * pow2(places(num, den)) >= 0x10_0000_0000_0000 * den,
    decreases
            (if num < 0x10_0000_0000_0000 * den {
                0x10_0000_0000_0000 * den - num
            } else {
                0
            }),
{
    vstd::arithmetic::power2::lemma2_to64();
    if num < 0x10_0000_0000_0000 * den {
        lemma_scaled(2 * num, den);
        let e = places(2 * num, den);
        vstd::arithmetic::power2::lemma_pow2_unfold((e + 1) as nat);
        assert(num * (2 * pow2(e)) == (2 * num) * pow2(e)) by (nonlinear_arith);
    } else {
        assert(num * 1 == num);
    }
}

/// A percentage is told to the nearest tenth, but for what a double cannot tell apart.
pub proof fn law_a_percentage_is_to_the_nearest_tenth(part: u64, whole: u64)
    requires
        0 < part <= whole < 0x4000_0000_0000,
    ensures
        ({
            let tenths = percent_tenths(part, whole);
            let off = 2 * (tenths * whole) - 2 * (1000 * part);
            &&& off * 0x2000_0000_0000 <= whole * 0x2000_0000_000a
            &&& -off * 0x2000_0000_0000 <= whole * 0x2000_0000_000a
        }),
{
    law_small_numbers_are_exact(part as nat);
    law_small_numbers_are_exact((100 * part) as nat);
    law_small_numbers_are_exact(whole as nat);
    let (num, den) = ((100 * part) as nat, whole as nat);
    assert(num / den < 0x20_0000_0000_0000) by (nonlinear_arith)
        requires
            num <= 100 * den,
            den > 0,
    ;
    let scale = pow2(places(num, den));
    vstd::arithmetic::power2::lemma_pow2_pos(places(num, den));
    lemma_scaled(num, den);
    assert(scale >= 0x2000_0000_0000) by (nonlinear_arith)
        requires
            num * scale >= 0x10_0000_0000_0000 * den,
            num <= 100 * den,
            den > 0,
            scale > 0,
    ;
    let x = round_even(num * scale, den);
    let t = round_even(10 * x, scale);
    assert(percent_tenths(part, whole) == t);
    law_quotients_are_rounded_to_the_nearest(num * scale, den);
    law_quotients_are_rounded_to_the_nearest(10 * x, scale);
    let off = 2 * (t * den) - 20 * num;
    lemma_off(num as int, den as int, scale as int, x as int, t as int, off);
    assert(2 * (1000 * part) == 20 * num);
}

proof fn lemma_off(num: int, den: int, scale: int, x: int, t: int, off: int)
    requires
        den > 0,
        scale >= 0x2000_0000_0000,
        2 * (x * den) <= 2 * (num * scale) + den,
        2 * (num * scale) <= 2 * (x * den) + den,
        2 * (t * scale) <= 2 * (10 * x) + scale,
        2 * (10 * x) <= 2 * (t * scale) + scale,
        off == 2 * (t * den) - 20 * num,
    ensures
        off * 0x2000_0000_0000 <= den * 0x2000_0000_000a,
        -off * 0x2000_0000_0000 <= den * 0x2000_0000_000a,
{
    let y = x * den;
    let s = t * scale;
    assert(2 * (s * den) <= 20 * y + scale * den) by (nonlinear_arith)
        requires
            2 * s <= 20 * x + scale,
            den > 0,
            y == x * den,
    ;
    assert(20 * y <= 2 * (s * den) + scale * den) by (nonlinear_arith)
        requires
            20 * x <= 2 * s + scale,
            den > 0,
            y == x * den,
    ;
    assert(off * scale == 2 * (s * den) - 20 * (num * scale)) by (nonlinear_arith)
        requires
            off == 2 * (t * den) - 20 * num,
            s == t * scale,
    ;
    assert(off * scale <= scale * den + 10 * den);
    assert(-(off * scale) <= scale * den + 10 * den);
    assert((off - den) * scale <= 10 * den) by (nonlinear_arith)
        requires
            off * scale <= scale * den + 10 * den,
    ;
    assert((-off - den) * scale <= 10 * den) by (nonlinear_arith)
        requires
            -(off * scale) <= scale * den + 10 * den,
    ;
    lemma_smaller(off - den, scale, den);
    lemma_smaller(-off - den, scale, den);
}

proof fn lemma_smaller(a: int, scale: int, den: int)
    requires
        a * scale <= 10 * den,
        scale >= 0x2000_0000_0000,
        den > 0,
    ensures
        a * 0x2000_0000_0000 <= 10 * den,
{
    assert(a * 0x2000_0000_0000 <= 10 * den) by (nonlinear_arith)
        requires
            a * scale <= 10 * den,
            scale >= 0x2000_0000_0000,
            den > 0,
    ;
}

/// A moment is written as its date and the time of the day, and the id of a plan begins with it.
pub proof fn law_a_moment_reads_as_its_date(
    y: int,
    m: int,
    d: int,
    hour: int,
    minute: int,
    second: int,
    salt: nat,
)
    requires
        is_date(y, m, d),
        0 <= hour < 24,
        0 <= minute < 60,
        0 <= second < 60,
    ensures
        ({
            let secs = day_number(y, m, d) * 86_400 + hour * 3600 + minute * 60 + second;
            &&& time_text(secs) == year_text(y) + "-"@ + two(m) + "-"@ + two(d) + " "@ + two(hour)
                + ":"@ + two(minute)
            &&& time_text_secs(secs) == time_text(secs) + ":"@ + two(second)
            &&& id_text(secs, salt) == year_text(y) + two(m) + two(d) + "T"@ + two(hour) + two(
                minute,
            ) + two(second) + "-"@ + hex_text(salt, 8)
        }),
{
    let days = day_number(y, m, d);
    let rem = hour * 3600 + minute * 60 + second;
    let secs = days * 86_400 + rem;
    assert(secs / 86_400 == days && secs % 86_400 == rem);
    lemma_date_of(days, y, m, d);
    assert(rem / 3600 == hour);
    assert(rem % 3600 == minute * 60 + second);
    assert((rem % 3600) / 60 == minute);
    assert(rem % 60 == second);
}

/// A field of a date has two digits, and reads as its number; so does a year, with four.
pub proof fn law_fields_read_as_their_numbers(n: nat)
    ensures
        n < 100 ==> two(n as int).len() == 2 && read_dec(two(n as int)) == n,
        n < 10_000 ==> year_text(n as int).len() == 4 && read_dec(year_text(n as int)) == n,
{
    crate::text::lemma_padded_value(n, 2);
    crate::text::lemma_padded_value(n, 4);
    reveal_with_fuel(dec, 5);
    assert(n < 10_000 ==> n / 10 / 10 / 10 < 10);
}

} // verus!
