//! What holds of times once they are written down.

use vstd::prelude::*;

use crate::format::{
    date_of, day_number, is_date, lemma_date_exists, lemma_year_starts, time_text, time_text_secs,
    two, year_text,
};
use crate::plan::{hex_text, id_text};
use crate::text::{dec, digit, lemma_dec_digits, lemma_padded_value, pad_left, read_dec};

verus! {

/// Whether `a` and `b` agree up to `k`, and `a` is the smaller there, or ends there.
pub open spec fn smaller_at(a: Seq<char>, b: Seq<char>, k: int) -> bool {
    &&& 0 <= k <= a.len()
    &&& k < b.len()
    &&& a.take(k) == b.take(k)
    &&& k < a.len() ==> a[k] < b[k]
}

/// Whether `a` comes before `b` where text is put in order.
pub open spec fn sorts_before(a: Seq<char>, b: Seq<char>) -> bool {
    exists|k: int| smaller_at(a, b, k)
}

proof fn lemma_same_front(x: Seq<char>, s: Seq<char>, t: Seq<char>)
    requires
        sorts_before(s, t),
    ensures
        sorts_before(x + s, x + t),
{
    let k = choose|k: int| smaller_at(s, t, k);
    let j = x.len() + k;
    assert((x + s).take(j) =~= x + s.take(k));
    assert((x + t).take(j) =~= x + t.take(k));
    assert(smaller_at(x + s, x + t, j));
}

proof fn lemma_smaller_front(x: Seq<char>, y: Seq<char>, s: Seq<char>, t: Seq<char>)
    requires
        x.len() == y.len(),
        sorts_before(x, y),
    ensures
        sorts_before(x + s, y + t),
{
    let k = choose|k: int| smaller_at(x, y, k);
    assert(x.take(k) =~= (x + s).take(k));
    assert(y.take(k) =~= (y + t).take(k));
    assert(smaller_at(x + s, y + t, k));
}

proof fn lemma_two(n: int)
    requires
        0 <= n < 100,
    ensures
        two(n).len() == 2,
        two(n)[0] == digit((n / 10) as nat),
        two(n)[1] == digit((n % 10) as nat),
        read_dec(two(n)) == n,
{
    reveal_with_fuel(dec, 2);
    lemma_padded_value(n as nat, 2);
}

proof fn lemma_two_sorts(a: int, b: int)
    requires
        0 <= a < b < 100,
    ensures
        sorts_before(two(a), two(b)),
{
    lemma_two(a);
    lemma_two(b);
    let k: int = if a / 10 < b / 10 {
        0
    } else {
        1
    };
    assert(two(a).take(k) =~= two(b).take(k));
    assert(smaller_at(two(a), two(b), k));
}

proof fn lemma_year_digits(y: int)
    requires
        1000 <= y <= 9999,
    ensures
        year_text(y).len() == 4,
        year_text(y)[0] == digit((y / 1000) as nat),
        year_text(y)[1] == digit(((y / 100) % 10) as nat),
        year_text(y)[2] == digit(((y / 10) % 10) as nat),
        year_text(y)[3] == digit((y % 10) as nat),
{
    reveal_with_fuel(dec, 4);
}

#[verifier::spinoff_prover]
proof fn lemma_by_digits(y: int)
    requires
        0 <= y <= 9999,
    ensures
        y == 1000 * (y / 1000) + 100 * ((y / 100) % 10) + 10 * ((y / 10) % 10) + y % 10,
        0 <= y / 1000 < 10,
{
    let (a, b) = (y / 10, (y / 10) / 10);
    assert(y / 100 == b);
    assert(y / 1000 == b / 10);
    assert(y == 10 * a + y % 10);
    assert(a == 10 * b + a % 10);
    assert(b == 10 * (b / 10) + b % 10);
}

proof fn lemma_year_sorts(a: int, b: int)
    requires
        1000 <= a < b <= 9999,
    ensures
        sorts_before(year_text(a), year_text(b)),
{
    let (x, y) = (year_text(a), year_text(b));
    lemma_by_digits(a);
    lemma_by_digits(b);
    let (a3, a2, a1, a0) = (a / 1000, (a / 100) % 10, (a / 10) % 10, a % 10);
    let (b3, b2, b1, b0) = (b / 1000, (b / 100) % 10, (b / 10) % 10, b % 10);
    lemma_year_digits(a);
    lemma_year_digits(b);
    let k: int = if a3 < b3 {
        0
    } else if a2 < b2 {
        1
    } else if a1 < b1 {
        2
    } else {
        3
    };
    lemma_first_digit(x, y, a3, a2, a1, a0, b3, b2, b1, b0, k);
}

proof fn lemma_first_digit(
    x: Seq<char>,
    y: Seq<char>,
    a3: int,
    a2: int,
    a1: int,
    a0: int,
    b3: int,
    b2: int,
    b1: int,
    b0: int,
    k: int,
)
    requires
        x.len() == 4 && y.len() == 4,
        0 <= a3 < 10 && 0 <= a2 < 10 && 0 <= a1 < 10 && 0 <= a0 < 10,
        0 <= b3 < 10 && 0 <= b2 < 10 && 0 <= b1 < 10 && 0 <= b0 < 10,
        1000 * a3 + 100 * a2 + 10 * a1 + a0 < 1000 * b3 + 100 * b2 + 10 * b1 + b0,
        x[0] == digit(a3 as nat) && x[1] == digit(a2 as nat) && x[2] == digit(a1 as nat) && x[3]
            == digit(a0 as nat),
        y[0] == digit(b3 as nat) && y[1] == digit(b2 as nat) && y[2] == digit(b1 as nat) && y[3]
            == digit(b0 as nat),
        k == (if a3 < b3 {
            0int
        } else if a2 < b2 {
            1
        } else if a1 < b1 {
            2
        } else {
            3
        }),
    ensures
        sorts_before(x, y),
{
    assert(x.take(k) =~= y.take(k));
    assert(smaller_at(x, y, k));
}

/// A field of two digits, what stands before it and what stands after it.
spec fn field(before: Seq<char>, n: int, after: Seq<char>) -> Seq<char> {
    before + (two(n) + after)
}

proof fn lemma_field_sorts(before: Seq<char>, a: int, b: int, s: Seq<char>, t: Seq<char>)
    requires
        0 <= a < 100,
        0 <= b < 100,
        a < b || (a == b && sorts_before(s, t)),
    ensures
        sorts_before(field(before, a, s), field(before, b, t)),
{
    if a < b {
        lemma_two_sorts(a, b);
        lemma_two(a);
        lemma_two(b);
        lemma_smaller_front(two(a), two(b), s, t);
    } else {
        lemma_same_front(two(a), s, t);
    }
    lemma_same_front(before, two(a) + s, two(b) + t);
}

proof fn lemma_field_distinct(before: Seq<char>, a: int, b: int, s: Seq<char>, t: Seq<char>)
    requires
        0 <= a < 100,
        0 <= b < 100,
        field(before, a, s) == field(before, b, t),
    ensures
        a == b,
        s == t,
{
    lemma_two(a);
    lemma_two(b);
    let x = field(before, a, s);
    let n = before.len() as int;
    assert(x.subrange(n, n + 2) =~= two(a));
    assert(x.subrange(n, n + 2) =~= two(b));
    assert(x.skip(n + 2) =~= s);
    assert(x.skip(n + 2) =~= t);
}

spec fn clock(rem: int) -> Seq<char> {
    field(
        " "@,
        rem / 3600,
        field(":"@, (rem % 3600) / 60, field(":"@, rem % 60, Seq::empty())),
    )
}

spec fn calendar(date: (int, int, int), after: Seq<char>) -> Seq<char> {
    year_text(date.0) + field("-"@, date.1, field("-"@, date.2, after))
}

proof fn lemma_field_joins(left: Seq<char>, before: Seq<char>, n: int, after: Seq<char>)
    ensures
        left + before + two(n) + after == left + field(before, n, after),
{
    assert(left + before + two(n) + after =~= left + field(before, n, after));
}

proof fn lemma_shape(secs: int)
    ensures
        time_text_secs(secs) == calendar(date_of(secs / 86_400), clock(secs % 86_400)),
{
    let date = date_of(secs / 86_400);
    let rem = secs % 86_400;
    let none = Seq::<char>::empty();
    let y = year_text(date.0);
    let m = y + "-"@ + two(date.1);
    let d = m + "-"@ + two(date.2);
    let h = d + " "@ + two(rem / 3600);
    let i = h + ":"@ + two((rem % 3600) / 60);
    let text = i + ":"@ + two(rem % 60);
    assert(text == time_text_secs(secs));
    assert(text + none =~= text);
    let s4 = field(":"@, rem % 60, none);
    lemma_field_joins(i, ":"@, rem % 60, none);
    let s3 = field(":"@, (rem % 3600) / 60, s4);
    lemma_field_joins(h, ":"@, (rem % 3600) / 60, s4);
    lemma_field_joins(d, " "@, rem / 3600, s3);
    lemma_field_joins(m, "-"@, date.2, clock(rem));
    lemma_field_joins(y, "-"@, date.1, field("-"@, date.2, clock(rem)));
}

proof fn lemma_clock_sorts(a: int, b: int)
    requires
        0 <= a < b < 86_400,
    ensures
        sorts_before(clock(a), clock(b)),
{
    let none = Seq::<char>::empty();
    let (h, m, s) = (a / 3600, (a % 3600) / 60, a % 60);
    let (h2, m2, s2) = (b / 3600, (b % 3600) / 60, b % 60);
    if h == h2 {
        if m == m2 {
            assert(s < s2);
            lemma_field_sorts(":"@, s, s2, none, none);
        }
        lemma_field_sorts(":"@, m, m2, field(":"@, s, none), field(":"@, s2, none));
    }
    lemma_field_sorts(
        " "@,
        h,
        h2,
        field(":"@, m, field(":"@, s, none)),
        field(":"@, m2, field(":"@, s2, none)),
    );
}

proof fn lemma_clock_distinct(a: int, b: int)
    requires
        0 <= a < 86_400,
        0 <= b < 86_400,
        clock(a) == clock(b),
    ensures
        a == b,
{
    let none = Seq::<char>::empty();
    let (h, m, s) = (a / 3600, (a % 3600) / 60, a % 60);
    let (h2, m2, s2) = (b / 3600, (b % 3600) / 60, b % 60);
    lemma_field_distinct(
        " "@,
        h,
        h2,
        field(":"@, m, field(":"@, s, none)),
        field(":"@, m2, field(":"@, s2, none)),
    );
    lemma_field_distinct(":"@, m, m2, field(":"@, s, none), field(":"@, s2, none));
    lemma_field_distinct(":"@, s, s2, none, none);
}

/// Of two days the later one has the later date.
proof fn lemma_dates_in_order(y: int, m: int, d: int, y2: int, m2: int, d2: int)
    requires
        is_date(y, m, d),
        is_date(y2, m2, d2),
        day_number(y, m, d) < day_number(y2, m2, d2),
    ensures
        y < y2 || (y == y2 && (m < m2 || (m == m2 && d < d2))),
{
    if y2 < y {
        lemma_year_starts(y2, y);
    }
}

/// A later time never sorts before an earlier one: from 1970 to the end of the year 9999 the text
/// of the earlier comes first.
pub proof fn law_times_sort(a: int, b: int)
    requires
        0 <= a < b <= 253_402_300_799,
    ensures
        sorts_before(time_text_secs(a), time_text_secs(b)),
{
    lemma_shape(a);
    lemma_shape(b);
    let (da, db) = (a / 86_400, b / 86_400);
    lemma_date_exists(da);
    lemma_date_exists(db);
    let (x, y) = (date_of(da), date_of(db));
    lemma_four_digits(x.0, x.1, x.2);
    lemma_four_digits(y.0, y.1, y.2);
    let (s, t) = (clock(a % 86_400), clock(b % 86_400));
    if da == db {
        lemma_clock_sorts(a % 86_400, b % 86_400);
    } else {
        lemma_dates_in_order(x.0, x.1, x.2, y.0, y.1, y.2);
    }
    if x.0 == y.0 {
        if x.1 == y.1 {
            lemma_field_sorts("-"@, x.2, y.2, s, t);
        }
        lemma_field_sorts("-"@, x.1, y.1, field("-"@, x.2, s), field("-"@, y.2, t));
        lemma_same_front(
            year_text(x.0),
            field("-"@, x.1, field("-"@, x.2, s)),
            field("-"@, y.1, field("-"@, y.2, t)),
        );
    } else {
        lemma_year_sorts(x.0, y.0);
        lemma_year_digits(x.0);
        lemma_year_digits(y.0);
        lemma_smaller_front(
            year_text(x.0),
            year_text(y.0),
            field("-"@, x.1, field("-"@, x.2, s)),
            field("-"@, y.1, field("-"@, y.2, t)),
        );
    }
}

proof fn lemma_four_digits(y: int, m: int, d: int)
    requires
        is_date(y, m, d),
        0 <= day_number(y, m, d) <= 2_932_896,
    ensures
        1970 <= y <= 9999,
{
    if y < 1970 {
        lemma_year_starts(y, 1970);
    }
    if y > 9999 {
        lemma_year_starts(9999, y);
    }
}

proof fn lemma_year_distinct(a: int, b: int)
    requires
        year_text(a) == year_text(b),
    ensures
        a == b,
{
    lemma_year_start(a);
    lemma_year_start(b);
    if a < 0 {
        let (x, y) = (pad_left(dec((-a) as nat), '0', 3), pad_left(dec((-b) as nat), '0', 3));
        assert(year_text(a).skip(1) =~= x);
        assert(year_text(b).skip(1) =~= y);
        lemma_padded_value((-a) as nat, 3);
        lemma_padded_value((-b) as nat, 3);
    } else {
        lemma_padded_value(a as nat, 4);
        lemma_padded_value(b as nat, 4);
    }
}

proof fn lemma_year_start(y: int)
    ensures
        year_text(y).len() >= 1,
        (year_text(y)[0] == '-') == (y < 0),
{
    if y >= 0 {
        lemma_dec_digits(y as nat);
    }
}

/// Two instants never print alike, to the second, and the seconds are those of the minute.
pub proof fn law_times_are_told_apart(a: int, b: int)
    ensures
        time_text_secs(a) == time_text(a) + ":"@ + two(a % 60),
        a != b ==> time_text_secs(a) != time_text_secs(b),
{
    assert((a % 86_400) % 60 == a % 60);
    if time_text_secs(a) == time_text_secs(b) {
        lemma_shape(a);
        lemma_shape(b);
        let (da, db) = (a / 86_400, b / 86_400);
        lemma_date_exists(da);
        lemma_date_exists(db);
        let (x, y) = (date_of(da), date_of(db));
        let (s, t) = (clock(a % 86_400), clock(b % 86_400));
        let u = field("-"@, x.1, field("-"@, x.2, s));
        let v = field("-"@, y.1, field("-"@, y.2, t));
        lemma_tail_len(x.1, x.2, a % 86_400);
        lemma_tail_len(y.1, y.2, b % 86_400);
        let text = time_text_secs(a);
        let n = text.len() - u.len();
        assert(text.take(n) =~= year_text(x.0));
        assert(text.take(n) =~= year_text(y.0));
        assert(text.skip(n) =~= u);
        assert(text.skip(n) =~= v);
        lemma_year_distinct(x.0, y.0);
        lemma_field_distinct("-"@, x.1, y.1, field("-"@, x.2, s), field("-"@, y.2, t));
        lemma_field_distinct("-"@, x.2, y.2, s, t);
        lemma_clock_distinct(a % 86_400, b % 86_400);
    }
}

proof fn lemma_tail_len(m: int, d: int, rem: int)
    requires
        0 <= m < 100,
        0 <= d < 100,
        0 <= rem < 86_400,
    ensures
        field("-"@, m, field("-"@, d, clock(rem))).len() == 10 + 2 * "-"@.len() + 2 * ":"@.len()
            + " "@.len(),
{
    lemma_two(m);
    lemma_two(d);
    lemma_two(rem / 3600);
    lemma_two((rem % 3600) / 60);
    lemma_two(rem % 60);
}

spec fn stamp(rem: int, after: Seq<char>) -> Seq<char> {
    let none = Seq::<char>::empty();
    field(
        "T"@,
        rem / 3600,
        field(none, (rem % 3600) / 60, field(none, rem % 60, after)),
    )
}

proof fn lemma_stamp_sorts(a: int, b: int, s: Seq<char>, t: Seq<char>)
    requires
        0 <= a < b < 86_400,
    ensures
        sorts_before(stamp(a, s), stamp(b, t)),
{
    let none = Seq::<char>::empty();
    let (h, m, x) = (a / 3600, (a % 3600) / 60, a % 60);
    let (h2, m2, x2) = (b / 3600, (b % 3600) / 60, b % 60);
    if h == h2 {
        if m == m2 {
            assert(x < x2);
            lemma_field_sorts(none, x, x2, s, t);
        }
        lemma_field_sorts(none, m, m2, field(none, x, s), field(none, x2, t));
    }
    lemma_field_sorts(
        "T"@,
        h,
        h2,
        field(none, m, field(none, x, s)),
        field(none, m2, field(none, x2, t)),
    );
}

spec fn dated(date: (int, int, int), after: Seq<char>) -> Seq<char> {
    let none = Seq::<char>::empty();
    year_text(date.0) + field(none, date.1, field(none, date.2, after))
}

proof fn lemma_id_shape(secs: int, salt: nat)
    ensures
        id_text(secs, salt) == dated(
            date_of(secs / 86_400),
            stamp(secs % 86_400, "-"@ + hex_text(salt, 8)),
        ),
{
    let date = date_of(secs / 86_400);
    let rem = secs % 86_400;
    let none = Seq::<char>::empty();
    let tail = "-"@ + hex_text(salt, 8);
    let y = year_text(date.0);
    let m = y + two(date.1);
    let d = m + two(date.2);
    let h = d + "T"@ + two(rem / 3600);
    let i = h + two((rem % 3600) / 60);
    assert(y + none =~= y && m + none =~= m && h + none =~= h && i + none =~= i);
    assert(id_text(secs, salt) =~= i + two(rem % 60) + tail);
    let s4 = field(none, rem % 60, tail);
    lemma_field_joins(i, none, rem % 60, tail);
    let s3 = field(none, (rem % 3600) / 60, s4);
    lemma_field_joins(h, none, (rem % 3600) / 60, s4);
    lemma_field_joins(d, "T"@, rem / 3600, s3);
    lemma_field_joins(m, none, date.2, stamp(rem, tail));
    lemma_field_joins(y, none, date.1, field(none, date.2, stamp(rem, tail)));
}

/// A list of plans is chronological without parsing: from 1970 to the end of the year 9999 the id of
/// a plan that was made earlier sorts before that of one that was made later.
pub proof fn law_ids_sort(a: int, b: int, salt: nat, other: nat)
    requires
        0 <= a < b <= 253_402_300_799,
    ensures
        sorts_before(id_text(a, salt), id_text(b, other)),
{
    lemma_id_shape(a, salt);
    lemma_id_shape(b, other);
    let none = Seq::<char>::empty();
    let (da, db) = (a / 86_400, b / 86_400);
    lemma_date_exists(da);
    lemma_date_exists(db);
    let (x, y) = (date_of(da), date_of(db));
    lemma_four_digits(x.0, x.1, x.2);
    lemma_four_digits(y.0, y.1, y.2);
    let s = stamp(a % 86_400, "-"@ + hex_text(salt, 8));
    let t = stamp(b % 86_400, "-"@ + hex_text(other, 8));
    if da == db {
        lemma_stamp_sorts(
            a % 86_400,
            b % 86_400,
            "-"@ + hex_text(salt, 8),
            "-"@ + hex_text(other, 8),
        );
    } else {
        lemma_dates_in_order(x.0, x.1, x.2, y.0, y.1, y.2);
    }
    if x.0 == y.0 {
        if x.1 == y.1 {
            lemma_field_sorts(none, x.2, y.2, s, t);
        }
        lemma_field_sorts(none, x.1, y.1, field(none, x.2, s), field(none, y.2, t));
        lemma_same_front(
            year_text(x.0),
            field(none, x.1, field(none, x.2, s)),
            field(none, y.1, field(none, y.2, t)),
        );
    } else {
        lemma_year_sorts(x.0, y.0);
        lemma_year_digits(x.0);
        lemma_year_digits(y.0);
        lemma_smaller_front(
            year_text(x.0),
            year_text(y.0),
            field(none, x.1, field(none, x.2, s)),
            field(none, y.1, field(none, y.2, t)),
        );
    }
}

} // verus!
