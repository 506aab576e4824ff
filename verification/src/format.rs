//! Formatting helpers shared by every frontend, so the command line and the browser never disagree
//! about what a number means.

pub mod sizes;
pub mod times;

use vstd::prelude::*;

use vstd::arithmetic::power2::{lemma2_to64, lemma_pow2_unfold, pow2};

use crate::text::{cat2, dec, decimal, decimal_padded, digit, digit_char, pad_left};

verus! {

pub open spec fn is_leap(y: int) -> bool {
    y % 4 == 0 && (y % 100 != 0 || y % 400 == 0)
}

/// How many leap days the years up to and including `y` hold, counted from the year zero.
pub open spec fn leap_days(y: int) -> int {
    y / 4 - y / 100 + y / 400
}

/// Days before the first of a month, in that year.
pub open spec fn days_before_month(y: int, m: int) -> int {
    let leap: int = if is_leap(y) {
        1
    } else {
        0
    };
    if m <= 1 {
        0
    } else if m == 2 {
        31
    } else if m == 3 {
        59 + leap
    } else if m == 4 {
        90 + leap
    } else if m == 5 {
        120 + leap
    } else if m == 6 {
        151 + leap
    } else if m == 7 {
        181 + leap
    } else if m == 8 {
        212 + leap
    } else if m == 9 {
        243 + leap
    } else if m == 10 {
        273 + leap
    } else if m == 11 {
        304 + leap
    } else if m == 12 {
        334 + leap
    } else {
        365 + leap
    }
}

/// Whether there is such a day in the calendar.
pub open spec fn is_date(y: int, m: int, d: int) -> bool {
    1 <= m <= 12 && 1 <= d <= days_before_month(y, m + 1) - days_before_month(y, m)
}

/// Days from the first of January 1970 to a date in the Gregorian calendar.
pub open spec fn day_number(y: int, m: int, d: int) -> int {
    365 * (y - 1) + leap_days(y - 1) + days_before_month(y, m) + d - 1 - 719_162
}

/// A day of the 400-year cycle that starts on the first of March.
proof fn lemma_year_of_cycle(doe: int, yoe: int)
    requires
        0 <= doe < 146_097,
        yoe == (doe - doe / 1460 + doe / 36_524 - doe / 146_096) / 365,
    ensures
        0 <= yoe < 400,
        0 <= doe - (365 * yoe + yoe / 4 - yoe / 100) < (if (yoe + 1) % 4 == 0 && ((yoe + 1) % 100
            != 0 || (yoe + 1) % 400 == 0) {
            366int
        } else {
            365int
        }),
{
}

proof fn lemma_month_of_year(doy: int, mp: int)
    requires
        0 <= doy < 366,
        mp == (5 * doy + 2) / 153,
    ensures
        0 <= mp < 12,
        0 <= doy - (153 * mp + 2) / 5,
        doy < (153 * (mp + 1) + 2) / 5,
{
}

proof fn lemma_cycles(era: int, yoe: int)
    requires
        0 <= yoe < 400,
    ensures
        leap_days(yoe + 400 * era) == yoe / 4 - yoe / 100 + 97 * era,
        is_leap(yoe + 400 * era + 1) == is_leap(yoe + 1),
{
    let y = yoe + 400 * era;
    assert(y / 4 == yoe / 4 + 100 * era);
    assert(y / 100 == yoe / 100 + 4 * era);
    assert(y / 400 == era);
    assert((y + 1) % 4 == (yoe + 1) % 4);
    assert((y + 1) % 100 == (yoe + 1) % 100);
    assert((y + 1) % 400 == (yoe + 1) % 400);
}

pub(crate) proof fn lemma_leap_step(y: int)
    ensures
        leap_days(y) == leap_days(y - 1) + (if is_leap(y) {
            1int
        } else {
            0int
        }),
{
}

/// A day counted from the first of March of year `y`, as a date.
proof fn lemma_march_year(y: int, doy: int, mp: int)
    requires
        0 <= mp < 12,
        0 <= doy - (153 * mp + 2) / 5,
        doy < (153 * (mp + 1) + 2) / 5,
        doy < (if is_leap(y + 1) {
            366int
        } else {
            365int
        }),
    ensures
        ({
            let d = doy - (153 * mp + 2) / 5 + 1;
            let m = if mp < 10 {
                mp + 3
            } else {
                mp - 9
            };
            let c = if m <= 2 {
                y + 1
            } else {
                y
            };
            is_date(c, m, d) && day_number(c, m, d) == 365 * y + leap_days(y) + doy - 719_468
        }),
{
    lemma_leap_step(y);
}

pub(crate) fn civil_from_days(days: i64) -> (r: (i64, u32, u32))
    requires
        -200_000_000_000_000 <= days <= 200_000_000_000_000,
    ensures
        is_date(r.0 as int, r.1 as int, r.2 as int),
        day_number(r.0 as int, r.1 as int, r.2 as int) == days,
{
    let z: i64 = days + 719_468;
    let (era, doe) = floor_div(z, 146_097);
    let yoe: i64 = (doe - doe / 1460 + doe / 36_524 - doe / 146_096) / 365;
    proof {
        lemma_year_of_cycle(doe as int, yoe as int);
    }
    let y: i64 = yoe + era * 400;
    let doy: i64 = doe - (365 * yoe + yoe / 4 - yoe / 100);
    let mp: i64 = (5 * doy + 2) / 153;
    proof {
        lemma_month_of_year(doy as int, mp as int);
        lemma_cycles(era as int, yoe as int);
        lemma_march_year(y as int, doy as int, mp as int);
    }
    let d: u32 = (doy - (153 * mp + 2) / 5 + 1) as u32;
    let m: u32 = (if mp < 10 {
        mp + 3
    } else {
        mp - 9
    }) as u32;
    (if m <= 2 {
        y + 1
    } else {
        y
    }, m, d)
}

pub(crate) proof fn lemma_year_starts(a: int, b: int)
    requires
        a < b,
    ensures
        365 * (a - 1) + leap_days(a - 1) + (if is_leap(a) {
            366int
        } else {
            365int
        }) <= 365 * (b - 1) + leap_days(b - 1),
    decreases b - a,
{
    lemma_leap_step(b - 1);
    if a < b - 1 {
        lemma_year_starts(a, b - 1);
    }
}

/// No two dates fall on the same day.
pub proof fn law_dates_are_unique(y: int, m: int, d: int, y2: int, m2: int, d2: int)
    requires
        is_date(y, m, d),
        is_date(y2, m2, d2),
        day_number(y, m, d) == day_number(y2, m2, d2),
    ensures
        y == y2,
        m == m2,
        d == d2,
{
    if y < y2 {
        lemma_year_starts(y, y2);
    } else if y2 < y {
        lemma_year_starts(y2, y);
    }
}

/// The date that is `days` after the first of January 1970.
pub open spec fn date_of(days: int) -> (int, int, int) {
    choose|t: (int, int, int)| #[trigger]
        is_date(t.0, t.1, t.2) && day_number(t.0, t.1, t.2) == days
}

pub(crate) proof fn lemma_date_of(days: int, y: int, m: int, d: int)
    requires
        is_date(y, m, d),
        day_number(y, m, d) == days,
    ensures
        date_of(days) == (y, m, d),
{
    let t = (y, m, d);
    assert(is_date(t.0, t.1, t.2) && day_number(t.0, t.1, t.2) == days);
    let c = date_of(days);
    law_dates_are_unique(c.0, c.1, c.2, y, m, d);
}

/// Every day has a date.
pub(crate) proof fn lemma_date_exists(days: int)
    ensures
        ({
            let t = date_of(days);
            is_date(t.0, t.1, t.2) && day_number(t.0, t.1, t.2) == days
        }),
{
    let z = days + 719_468;
    let era = z / 146_097;
    let doe = z % 146_097;
    let yoe = (doe - doe / 1460 + doe / 36_524 - doe / 146_096) / 365;
    lemma_year_of_cycle(doe, yoe);
    let y = yoe + 400 * era;
    let doy = doe - (365 * yoe + yoe / 4 - yoe / 100);
    let mp = (5 * doy + 2) / 153;
    lemma_month_of_year(doy, mp);
    lemma_cycles(era, yoe);
    lemma_march_year(y, doy, mp);
    let d = doy - (153 * mp + 2) / 5 + 1;
    let m = if mp < 10 {
        mp + 3
    } else {
        mp - 9
    };
    let c = if m <= 2 {
        y + 1
    } else {
        y
    };
    lemma_date_of(days, c, m, d);
}

/// A year in at least four places, the sign of a year before the year zero among them.
pub open spec fn year_text(y: int) -> Seq<char> {
    if y < 0 {
        seq!['-'] + pad_left(dec((-y) as nat), '0', 3)
    } else {
        pad_left(dec(y as nat), '0', 4)
    }
}

pub open spec fn two(n: int) -> Seq<char> {
    pad_left(dec(n as nat), '0', 2)
}

/// A Unix timestamp as `YYYY-MM-DD HH:MM` in UTC.
pub open spec fn time_text(secs: int) -> Seq<char> {
    let date = date_of(secs / 86_400);
    let rem = secs % 86_400;
    year_text(date.0) + "-"@ + two(date.1) + "-"@ + two(date.2) + " "@ + two(rem / 3600) + ":"@
        + two((rem % 3600) / 60)
}

/// A Unix timestamp as `YYYY-MM-DD HH:MM:SS` in UTC.
pub open spec fn time_text_secs(secs: int) -> Seq<char> {
    time_text(secs) + ":"@ + two((secs % 86_400) % 60)
}

pub(crate) fn year_string(y: i64) -> (r: String)
    requires
        y > i64::MIN,
    ensures
        r@ == year_text(y as int),
{
    if y < 0 {
        let mut s = String::new();
        s.push('-');
        let digits = decimal_padded((-y) as u64, 3);
        s.append(digits.as_str());
        proof {
            assert(s@ =~= year_text(y as int));
        }
        s
    } else {
        decimal_padded(y as u64, 4)
    }
}

/// Render a Unix timestamp as `YYYY-MM-DD HH:MM` in UTC.
pub fn format_time(secs: i64) -> (r: String)
    ensures
        r@ == time_text(secs as int),
{
    let (days, rem) = floor_div(secs, 86_400);
    let (year, month, day) = civil_from_days(days);
    proof {
        lemma_date_of(days as int, year as int, month as int, day as int);
        lemma_year_bound(days as int, year as int, month as int, day as int);
    }
    let mut s = year_string(year);
    s.append("-");
    let mo = decimal_padded(month as u64, 2);
    s.append(mo.as_str());
    s.append("-");
    let da = decimal_padded(day as u64, 2);
    s.append(da.as_str());
    s.append(" ");
    let h = decimal_padded((rem / 3600) as u64, 2);
    s.append(h.as_str());
    s.append(":");
    let mi = decimal_padded(((rem % 3600) / 60) as u64, 2);
    s.append(mi.as_str());
    s
}

/// The year is never further from the epoch than the day number.
pub(crate) proof fn lemma_year_bound(days: int, y: int, m: int, d: int)
    requires
        is_date(y, m, d),
        day_number(y, m, d) == days,
        -200_000_000_000_000 <= days <= 200_000_000_000_000,
    ensures
        -200_000_000_000_000 <= y <= 200_000_000_000_000,
{
}

/// Same, to the second. Used where two timestamps are compared and minute resolution would print
/// them as identical.
pub fn format_time_secs(secs: i64) -> (r: String)
    ensures
        r@ == time_text_secs(secs as int),
{
    let (_days, rem) = floor_div(secs, 86_400);
    let mut s = format_time(secs);
    s.append(":");
    let tail = decimal_padded((rem % 60) as u64, 2);
    s.append(tail.as_str());
    s
}

/// A count in groups of three digits.
pub open spec fn grouped(n: nat) -> Seq<char>
    decreases n,
{
    if n < 1000 {
        dec(n)
    } else {
        grouped(n / 1000) + " "@ + pad_left(dec(n % 1000), '0', 3)
    }
}

/// Render a count with thin separators: `1 234 567`.
pub fn human_count(n: u64) -> (r: String)
    ensures
        r@ == grouped(n as nat),
    decreases n,
{
    if n < 1000 {
        decimal(n)
    } else {
        let mut s = human_count(n / 1000);
        s.append(" ");
        let tail = decimal_padded(n % 1000, 3);
        s.append(tail.as_str());
        s
    }
}

/// The nearest integer to a fraction; half way goes to the even one.
pub open spec fn round_even(num: nat, den: nat) -> nat {
    let q = num / den;
    let r = num % den;
    if 2 * r > den || (2 * r == den && q % 2 == 1) {
        q + 1
    } else {
        q
    }
}

/// The step between neighbouring double precision numbers of the size of `n`.
pub open spec fn double_step(n: nat) -> nat
    decreases n,
{
    if n < 0x20_0000_0000_0000 {
        1
    } else {
        2 * double_step(n / 2)
    }
}

/// The double precision number nearest to `n`.
pub open spec fn as_double(n: nat) -> nat {
    round_even(n, double_step(n)) * double_step(n)
}

/// How often `v` can be divided by 1024 before it is below 1024.
pub open spec fn unit_of(v: nat) -> nat
    decreases v,
{
    if v < 1024 {
        0
    } else {
        1 + unit_of(v / 1024)
    }
}

pub open spec fn unit_size(unit: nat) -> nat
    decreases unit,
{
    if unit == 0 {
        1
    } else {
        1024 * unit_size((unit - 1) as nat)
    }
}

pub open spec fn unit_name(unit: nat) -> Seq<char> {
    if unit == 0 {
        "B"@
    } else if unit == 1 {
        "KiB"@
    } else if unit == 2 {
        "MiB"@
    } else if unit == 3 {
        "GiB"@
    } else if unit == 4 {
        "TiB"@
    } else if unit == 5 {
        "PiB"@
    } else {
        "EiB"@
    }
}

/// A byte count the way a human reads it: whole bytes below 1024, otherwise one decimal in the
/// largest unit that fits, measured on the nearest double precision number.
pub open spec fn size_text(bytes: nat) -> Seq<char> {
    let value = as_double(bytes);
    let unit = unit_of(value);
    if unit == 0 {
        dec(bytes) + " B"@
    } else {
        let tenths = round_even(10 * value, unit_size(unit));
        dec(tenths / 10) + "."@ + seq![digit(tenths % 10)] + " "@ + unit_name(unit)
    }
}

/// How many binary places behind the point a double precision number of the size of `num / den`
/// has, where it has any.
pub open spec fn places(num: nat, den: nat) -> nat
    decreases
            (if num < 0x10_0000_0000_0000 * den {
                0x10_0000_0000_0000 * den - num
            } else {
                0
            }),
{
    if num == 0 || num >= 0x10_0000_0000_0000 * den {
        0
    } else {
        1 + places(2 * num, den)
    }
}

/// The double precision number nearest to `num / den`, rounded to tenths.
pub open spec fn tenths_of(num: nat, den: nat) -> nat {
    if num / den >= 0x20_0000_0000_0000 {
        let step = double_step(num / den);
        10 * (round_even(num, den * step) * step)
    } else {
        let scale = pow2(places(num, den));
        round_even(10 * round_even(num * scale, den), scale)
    }
}

pub(crate) fn round_half_even(num: u128, den: u128) -> (r: u128)
    requires
        0 < den < 0x8000_0000_0000_0000_0000_0000_0000_0000,
        num < u128::MAX,
    ensures
        r == round_even(num as nat, den as nat),
{
    let q: u128 = num / den;
    let rem: u128 = num % den;
    proof {
        assert(q <= num) by (nonlinear_arith)
            requires
                q == num / den,
                den > 0,
        ;
    }
    if 2 * rem > den || (2 * rem == den && q % 2 == 1) {
        q + 1
    } else {
        q
    }
}

proof fn lemma_double_step(n: nat, p: nat, k: nat)
    requires
        p > 0,
        double_step(n) == p * double_step(k),
        k == n / p,
        k >= 0x20_0000_0000_0000,
    ensures
        double_step(n) == (2 * p) * double_step(k / 2),
        k / 2 == n / (2 * p),
{
    assert(p * (2 * double_step(k / 2)) == (2 * p) * double_step(k / 2)) by (nonlinear_arith);
    vstd::arithmetic::div_mod::lemma_div_denominator(n as int, p as int, 2);
    assert(p * 2 == 2 * p);
}

/// The double precision number nearest to `n`.
fn to_double(n: u128) -> (r: u128)
    requires
        n < 0x100_0000_0000_0000_0000,
    ensures
        r == as_double(n as nat),
        r <= 2 * n,
        0 < n ==> 0 < r,
        n < 0x1_0000_0000_0000_0000 ==> r <= 0x1_0000_0000_0000_0000,
{
    let mut p: u128 = 1;
    let mut k: u128 = n;
    while k >= 0x20_0000_0000_0000
        invariant
            p > 0,
            k == n as int / p as int,
            double_step(n as nat) == p as nat * double_step(k as nat),
            k as int * p as int <= n,
            n < 0x100_0000_0000_0000_0000,
            k <= n,
            p == 1 || p <= n,
            0 < n ==> 0 < k,
        decreases k,
    {
        proof {
            lemma_double_step(n as nat, p as nat, k as nat);
            assert(p <= 0x8_0000) by (nonlinear_arith)
                requires
                    k as int * p as int <= n,
                    k >= 0x20_0000_0000_0000,
                    p > 0,
                    n < 0x100_0000_0000_0000_0000,
            ;
            assert((k as int / 2) * (2 * p as int) <= k as int * p as int) by (nonlinear_arith)
                requires
                    p > 0,
                    k >= 0,
            ;
        }
        p = 2 * p;
        k = k / 2;
    }
    proof {
        assert(double_step(k as nat) == 1);
        assert(p as nat * 1 == p);
        assert(double_step(n as nat) == p);
        if n < 0x1_0000_0000_0000_0000 {
            lemma_double_bound(n as nat, p as nat);
        }
        let r = round_even(n as nat, p as nat);
        assert(0 <= r * p <= n + p && (0 < k ==> p <= r * p)) by (nonlinear_arith)
            requires
                k == n as int / p as int,
                p > 0,
                k <= r <= k + 1,
        ;
    }
    let q: u128 = round_half_even(n, p);
    q * p
}

proof fn lemma_double_bound(n: nat, p: nat)
    requires
        p > 0,
        p == double_step(n),
        n < 0x1_0000_0000_0000_0000,
    ensures
        round_even(n, p) * p <= 0x1_0000_0000_0000_0000,
{
    lemma_step_shape(n, 11);
    let q = n / p;
    let r = n % p;
    vstd::arithmetic::div_mod::lemma_fundamental_div_mod(n as int, p as int);
    if round_even(n, p) == q + 1 {
        // The next multiple of a power of two is at most 2^64, which is one itself.
        let whole = 0x1_0000_0000_0000_0000nat / p;
        assert(whole * p == 0x1_0000_0000_0000_0000);
        assert(q < whole) by (nonlinear_arith)
            requires
                p * q + r == n,
                n < whole * p,
                0 <= r,
                p > 0,
        ;
        assert((q + 1) * p <= whole * p) by (nonlinear_arith)
            requires
                q + 1 <= whole,
                p > 0,
        ;
    } else {
        assert(q * p <= n) by (nonlinear_arith)
            requires
                p * q + r == n,
                0 <= r,
        ;
    }
}

proof fn lemma_step_shape(n: nat, k: nat)
    requires
        k <= 11,
        k == 11 ==> n < 0x1_0000_0000_0000_0000,
        k == 10 ==> n < 0x8000_0000_0000_0000,
        k == 9 ==> n < 0x4000_0000_0000_0000,
        k == 8 ==> n < 0x2000_0000_0000_0000,
        k == 7 ==> n < 0x1000_0000_0000_0000,
        k == 6 ==> n < 0x800_0000_0000_0000,
        k == 5 ==> n < 0x400_0000_0000_0000,
        k == 4 ==> n < 0x200_0000_0000_0000,
        k == 3 ==> n < 0x100_0000_0000_0000,
        k == 2 ==> n < 0x80_0000_0000_0000,
        k == 1 ==> n < 0x40_0000_0000_0000,
        k == 0 ==> n < 0x20_0000_0000_0000,
    ensures
        ({
            let p = double_step(n);
            p == 1 || (k >= 1 && p == 2) || (k >= 2 && p == 4) || (k >= 3 && p == 8) || (k >= 4 && p
                == 16) || (k >= 5 && p == 32) || (k >= 6 && p == 64) || (k >= 7 && p == 128) || (k
                >= 8 && p == 256) || (k >= 9 && p == 512) || (k >= 10 && p == 1024) || (k >= 11 && p
                == 2048)
        }),
    decreases k,
{
    if n >= 0x20_0000_0000_0000 {
        lemma_step_shape(n / 2, (k - 1) as nat);
    }
}

/// Render a byte count the way a human reads it: `1.4 GiB`, `512 B`.
pub fn human_size(bytes: u64) -> (r: String)
    ensures
        r@ == size_text(bytes as nat),
{
    let value: u128 = to_double(bytes as u128);
    let mut unit: u64 = 0;
    let mut size: u128 = 1;
    let mut left: u128 = value;
    while left >= 1024
        invariant
            unit + unit_of(left as nat) == unit_of(value as nat),
            size == unit_size(unit as nat),
            unit <= 6,
            unit == 0 ==> left <= 0x1_0000_0000_0000_0000,
            unit == 1 ==> left <= 0x40_0000_0000_0000,
            unit == 2 ==> left <= 0x1000_0000_0000,
            unit == 3 ==> left <= 0x4_0000_0000,
            unit == 4 ==> left <= 0x100_0000,
            unit == 5 ==> left <= 0x4000,
            unit == 6 ==> left <= 0x10,
            size <= 0x1000_0000_0000_0000,
            unit == 0 ==> size == 1,
            unit == 1 ==> size == 0x400,
            unit == 2 ==> size == 0x10_0000,
            unit == 3 ==> size == 0x4000_0000,
            unit == 4 ==> size == 0x100_0000_0000,
            unit == 5 ==> size == 0x4_0000_0000_0000,
            unit == 6 ==> size == 0x1000_0000_0000_0000,
        decreases left,
    {
        left = left / 1024;
        size = size * 1024;
        unit = unit + 1;
    }
    if unit == 0 {
        let digits = decimal(bytes);
        return cat2(digits.as_str(), " B");
    }
    proof {
        assert(10 * value <= 10 * 0x1_0000_0000_0000_0000);
    }
    let tenths: u128 = round_half_even(10 * value, size);
    proof {
        lemma_tenths(10 * value as nat, size as nat);
    }
    let whole: u64 = (tenths / 10) as u64;
    let mut s = decimal(whole);
    s.append(".");
    s.push(digit_char((tenths % 10) as u64));
    s.append(" ");
    s.append(
        if unit == 1 {
            "KiB"
        } else if unit == 2 {
            "MiB"
        } else if unit == 3 {
            "GiB"
        } else if unit == 4 {
            "TiB"
        } else if unit == 5 {
            "PiB"
        } else {
            "EiB"
        },
    );
    s
}

proof fn lemma_tenths(num: nat, den: nat)
    requires
        den >= 1024,
        num <= 10 * 0x1_0000_0000_0000_0000,
    ensures
        round_even(num, den) / 10 <= u64::MAX,
{
    assert(num / den <= num / 1024) by (nonlinear_arith)
        requires
            den >= 1024,
    ;
}

/// Percentage of `whole` that `part` is, in tenths, computed in double precision.
pub open spec fn percent_tenths(part: u64, whole: u64) -> nat {
    tenths_of(as_double(100 * as_double(part as nat)), as_double(whole as nat))
}

pub(crate) fn percent_in_tenths(part: u64, whole: u64) -> (r: u128)
    requires
        0 < whole,
    ensures
        r == percent_tenths(part, whole),
{
    let scaled: u128 = to_double(100 * to_double(part as u128));
    let base: u128 = to_double(whole as u128);
    round_quotient(scaled, base)
}

fn round_quotient(num: u128, den: u128) -> (r: u128)
    requires
        0 < den <= 0x1_0000_0000_0000_0000,
        num <= 0x100_0000_0000_0000_0000,
    ensures
        r == tenths_of(num as nat, den as nat),
{
    let whole: u128 = num / den;
    if whole >= 0x20_0000_0000_0000 {
        round_large(num, den)
    } else {
        round_small(num, den)
    }
}

fn round_small(num: u128, den: u128) -> (r: u128)
    requires
        0 < den <= 0x1_0000_0000_0000_0000,
        num <= 0x100_0000_0000_0000_0000,
        (num as nat) / (den as nat) < 0x20_0000_0000_0000,
    ensures
        r == tenths_of(num as nat, den as nat),
{
    let mut scale: u128 = 1;
    let mut top: u128 = num;
    let ghost mut e: nat = 0;
    proof {
        lemma2_to64();
        assert(num < 0x20_0000_0000_0000 * den) by (nonlinear_arith)
            requires
                (num as nat) / (den as nat) < 0x20_0000_0000_0000,
                0 < den,
        ;
    }
    while top != 0 && top < 0x10_0000_0000_0000 * den
        invariant
            0 < den <= 0x1_0000_0000_0000_0000,
            0 < scale,
            scale == pow2(e),
            top == num * scale,
            top < 0x20_0000_0000_0000 * den,
            num == 0 ==> e == 0,
            0 < num ==> scale <= top,
            scale <= 0x20_0000_0000_0000 * den,
            places(num as nat, den as nat) == e + places(top as nat, den as nat),
        decreases 0x20_0000_0000_0000 * den - top,
    {
        proof {
            lemma_pow2_unfold((e + 1) as nat);
            assert(num * (2 * scale) == 2 * (num * scale)) by (nonlinear_arith);
            e = e + 1;
        }
        scale = 2 * scale;
        top = 2 * top;
    }
    proof {
        assert(places(top as nat, den as nat) == 0);
        assert(num as nat * pow2(e) == top);
    }
    let m: u128 = round_half_even(top, den);
    proof {
        assert(m <= 0x20_0000_0000_0000) by (nonlinear_arith)
            requires
                m <= top as int / den as int + 1,
                top < 0x20_0000_0000_0000 * den,
                0 < den,
        ;
    }
    round_half_even(10 * m, scale)
}

fn round_large(num: u128, den: u128) -> (r: u128)
    requires
        0 < den <= 0x1_0000_0000_0000_0000,
        num <= 0x100_0000_0000_0000_0000,
        (num as nat) / (den as nat) >= 0x20_0000_0000_0000,
    ensures
        r == tenths_of(num as nat, den as nat),
{
    let whole: u128 = num / den;
    let mut step: u128 = 1;
    let mut k: u128 = whole;
    proof {
        assert(whole <= num) by (nonlinear_arith)
            requires
                whole == num as int / den as int,
                0 < den,
        ;
    }
    while k >= 0x20_0000_0000_0000
        invariant
            step > 0,
            whole <= 0x100_0000_0000_0000_0000,
            k == whole as int / step as int,
            double_step(whole as nat) == step as nat * double_step(k as nat),
            k as int * step as int <= whole,
            step == 1 || step <= whole,
        decreases k,
    {
        proof {
            lemma_double_step(whole as nat, step as nat, k as nat);
            assert(step <= 0x8_0000) by (nonlinear_arith)
                requires
                    k as int * step as int <= whole,
                    k >= 0x20_0000_0000_0000,
                    step > 0,
                    whole <= 0x100_0000_0000_0000_0000,
            ;
            assert((k as int / 2) * (2 * step as int) <= k as int * step as int)
                by (nonlinear_arith)
                requires
                    step > 0,
                    k >= 0,
            ;
        }
        step = 2 * step;
        k = k / 2;
    }
    proof {
        assert(double_step(k as nat) == 1);
        assert(step as nat * 1 == step);
        assert(den * step <= num && den * step > 0) by (nonlinear_arith)
            requires
                whole == num as int / den as int,
                0 < step <= whole,
                0 < den,
        ;
    }
    let q: u128 = round_half_even(num, den * step);
    proof {
        let unit = den * step;
        assert(q * step <= 2 * num) by (nonlinear_arith)
            requires
                unit == den * step,
                0 <= q <= num as int / unit + 1,
                0 < den,
                0 < step,
                unit <= num,
        ;
    }
    10 * (q * step)
}

/// Quotient and remainder, the remainder never negative.
pub(crate) fn floor_div(a: i64, b: i64) -> (r: (i64, i64))
    requires
        b > 1,
    ensures
        r.0 == a as int / b as int,
        r.1 == a as int % b as int,
        0 <= r.1 < b,
{
    if a >= 0 {
        (a / b, a % b)
    } else {
        // -(a + 1) cannot overflow, and -1 - n has the quotient -1 - n / b.
        let n: i64 = -(a + 1);
        let q: i64 = -1 - n / b;
        let rem: i64 = b - 1 - n % b;
        proof {
            vstd::arithmetic::div_mod::lemma_fundamental_div_mod(n as int, b as int);
            assert(a == q * b + rem) by (nonlinear_arith)
                requires
                    n == -(a + 1),
                    n == b * (n as int / b as int) + n as int % b as int,
                    q == -1 - n as int / b as int,
                    rem == b - 1 - n as int % b as int,
            ;
            vstd::arithmetic::div_mod::lemma_fundamental_div_mod_converse(
                a as int,
                b as int,
                q as int,
                rem as int,
            );
        }
        (q, rem)
    }
}

} // verus!
