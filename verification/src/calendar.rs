//! Moments in time and the second-precision UTC stamp that names an archive.
//!
//! A stamp is `YYYY-MM-DDTHH:MM:SSZ` in the proleptic Gregorian calendar. The
//! calendar itself comes from the `time` crate; the specification functions
//! here say what it computes, so that everything built on stamps (names,
//! retention) can be stated over plain integers and characters.

use vstd::prelude::*;

use crate::text::{lemma_text_le_decided, lemma_text_le_itself, text_le};

verus! {

/// A calendar date and time of day, in UTC.
pub struct Civil {
    pub year: int,
    pub month: int,
    pub day: int,
    pub hour: int,
    pub minute: int,
    pub second: int,
}

/// Gregorian leap year rule.
pub open spec fn is_leap(year: int) -> bool {
    year % 4 == 0 && (year % 100 != 0 || year % 400 == 0)
}

pub open spec fn days_in_month(year: int, month: int) -> int {
    if month == 2 {
        if is_leap(year) {
            29
        } else {
            28
        }
    } else if month == 4 || month == 6 || month == 9 || month == 11 {
        30
    } else {
        31
    }
}

/// Days from 0000-01-01 to the first day of `year`: 365 a year, plus one for
/// every leap year in between.
pub open spec fn days_before_year(year: int) -> int {
    365 * year + (year + 3) / 4 - (year + 99) / 100 + (year + 399) / 400
}

/// Days from the first day of `year` to the first day of its month `month`.
pub open spec fn days_before_month(year: int, month: int) -> int
    decreases month,
{
    if month <= 1 {
        0
    } else {
        days_before_month(year, month - 1) + days_in_month(year, month - 1)
    }
}

/// Days from 0000-01-01 to 1970-01-01.
pub open spec fn epoch_day() -> int {
    719528
}

/// Whether the fields name an existing second of the years -9999 to 9999.
pub open spec fn valid_civil(c: Civil) -> bool {
    &&& -9999 <= c.year <= 9999
    &&& 1 <= c.month <= 12
    &&& 1 <= c.day <= days_in_month(c.year, c.month)
    &&& 0 <= c.hour <= 23
    &&& 0 <= c.minute <= 59
    &&& 0 <= c.second <= 59
}

/// Seconds from 1970-01-01T00:00:00Z to `c`.
pub open spec fn unix_seconds(c: Civil) -> int {
    (days_before_year(c.year) + days_before_month(c.year, c.month) + c.day - 1 - epoch_day())
        * 86400 + c.hour * 3600 + c.minute * 60 + c.second
}

/// -9999-01-01T00:00:00Z.
pub const MIN_SECONDS: i64 = -377705116800;

/// 9999-12-31T23:59:59Z.
pub const MAX_SECONDS: i64 = 253402300799;

/// The calendar reading of the second that starts `seconds` after the epoch.
pub open spec fn civil_of(seconds: int) -> Civil {
    choose|c: Civil| valid_civil(c) && unix_seconds(c) == seconds
}

pub open spec fn digit(n: int) -> char {
    (48 + n) as char
}

/// The twenty characters `YYYY-MM-DDTHH:MM:SSZ`; a year is written without its
/// sign.
pub open spec fn unsigned_stamp(c: Civil) -> Seq<char> {
    let y = if c.year < 0 {
        -c.year
    } else {
        c.year
    };
    seq![
        digit(y / 1000 % 10),
        digit(y / 100 % 10),
        digit(y / 10 % 10),
        digit(y % 10),
        '-',
        digit(c.month / 10),
        digit(c.month % 10),
        '-',
        digit(c.day / 10),
        digit(c.day % 10),
        'T',
        digit(c.hour / 10),
        digit(c.hour % 10),
        ':',
        digit(c.minute / 10),
        digit(c.minute % 10),
        ':',
        digit(c.second / 10),
        digit(c.second % 10),
        'Z',
    ]
}

/// The stamp of a calendar reading: a year before 0 takes a leading minus.
pub open spec fn stamp_chars(c: Civil) -> Seq<char> {
    if c.year < 0 {
        seq!['-'] + unsigned_stamp(c)
    } else {
        unsigned_stamp(c)
    }
}

/// The stamp of the moment `nanos` nanoseconds after the epoch; the fraction of
/// a second is dropped.
pub open spec fn stamp_text(nanos: int) -> Seq<char> {
    stamp_chars(civil_of(nanos / 1_000_000_000))
}

pub open spec fn is_digit(c: char) -> bool {
    '0' <= c <= '9'
}

pub open spec fn digit_value(c: char) -> int {
    c as int - 48
}

pub open spec fn two_digits(s: Seq<char>, i: int) -> int {
    digit_value(s[i]) * 10 + digit_value(s[i + 1])
}

/// Whether `s` has digits and separators where `YYYY-MM-DDTHH:MM:SSZ` has them.
pub open spec fn stamp_shape(s: Seq<char>) -> bool {
    &&& s.len() == 20
    &&& is_digit(s[0]) && is_digit(s[1]) && is_digit(s[2]) && is_digit(s[3])
    &&& s[4] == '-'
    &&& is_digit(s[5]) && is_digit(s[6])
    &&& s[7] == '-'
    &&& is_digit(s[8]) && is_digit(s[9])
    &&& s[10] == 'T'
    &&& is_digit(s[11]) && is_digit(s[12])
    &&& s[13] == ':'
    &&& is_digit(s[14]) && is_digit(s[15])
    &&& s[16] == ':'
    &&& is_digit(s[17]) && is_digit(s[18])
    &&& s[19] == 'Z'
}

/// The fields that a text of stamp shape spells, its year negated on request.
pub open spec fn fields_of(s: Seq<char>, negative: bool) -> Civil {
    let y = two_digits(s, 0) * 100 + two_digits(s, 2);
    Civil {
        year: if negative {
            -y
        } else {
            y
        },
        month: two_digits(s, 5),
        day: two_digits(s, 8),
        hour: two_digits(s, 11),
        minute: two_digits(s, 14),
        second: two_digits(s, 17),
    }
}

/// The second that `YYYY-MM-DDTHH:MM:SSZ` names, if it names one.
pub open spec fn unsigned_seconds(s: Seq<char>, negative: bool) -> Option<int> {
    if stamp_shape(s) && valid_civil(fields_of(s, negative)) {
        Some(unix_seconds(fields_of(s, negative)))
    } else {
        None
    }
}

/// The second that a stamp names, if it names one; its year may carry a sign.
pub open spec fn stamp_seconds(s: Seq<char>) -> Option<int> {
    if s.len() > 0 && s[0] == '-' {
        unsigned_seconds(s.skip(1), true)
    } else if s.len() > 0 && s[0] == '+' {
        unsigned_seconds(s.skip(1), false)
    } else {
        unsigned_seconds(s, false)
    }
}

proof fn lemma_year_step(year: int)
    ensures
        days_before_year(year + 1) == days_before_year(year) + 365 + if is_leap(year) {
            1int
        } else {
            0
        },
{
}

proof fn lemma_year_monotonic(a: int, b: int)
    requires
        a < b,
    ensures
        days_before_year(a) + 365 + (if is_leap(a) {
            1int
        } else {
            0
        }) <= days_before_year(b),
    decreases b - a,
{
    lemma_year_step(a);
    if a + 1 < b {
        lemma_year_monotonic(a + 1, b);
    }
}

/// Month lengths add up: the table of days before each month.
proof fn lemma_months(year: int)
    ensures
        days_before_month(year, 1) == 0,
        days_before_month(year, 2) == 31,
        ({
            let f = if is_leap(year) {
                1int
            } else {
                0
            };
            &&& days_before_month(year, 3) == 59 + f
            &&& days_before_month(year, 4) == 90 + f
            &&& days_before_month(year, 5) == 120 + f
            &&& days_before_month(year, 6) == 151 + f
            &&& days_before_month(year, 7) == 181 + f
            &&& days_before_month(year, 8) == 212 + f
            &&& days_before_month(year, 9) == 243 + f
            &&& days_before_month(year, 10) == 273 + f
            &&& days_before_month(year, 11) == 304 + f
            &&& days_before_month(year, 12) == 334 + f
        }),
{
    reveal_with_fuel(days_before_month, 13);
}

/// Some year between `lo` and `hi` contains day `day`.
proof fn lemma_year_exists(day: int, lo: int, hi: int) -> (year: int)
    requires
        lo < hi,
        days_before_year(lo) <= day < days_before_year(hi),
    ensures
        lo <= year < hi,
        days_before_year(year) <= day < days_before_year(year + 1),
    decreases hi - lo,
{
    if day < days_before_year(lo + 1) {
        lo
    } else {
        lemma_year_exists(day, lo + 1, hi)
    }
}

/// Every second of the years -9999 to 9999 has a calendar reading.
pub proof fn lemma_civil_exists(seconds: int)
    requires
        MIN_SECONDS <= seconds <= MAX_SECONDS,
    ensures
        valid_civil(civil_of(seconds)),
        unix_seconds(civil_of(seconds)) == seconds,
{
    let day = seconds / 86400 + epoch_day();
    let rest = seconds % 86400;
    let year = lemma_year_exists(day, -9999, 10000);
    lemma_year_step(year);
    lemma_months(year);
    let n = day - days_before_year(year);
    let f = if is_leap(year) {
        1int
    } else {
        0
    };
    let month: int = if n < 31 {
        1
    } else if n < 59 + f {
        2
    } else if n < 90 + f {
        3
    } else if n < 120 + f {
        4
    } else if n < 151 + f {
        5
    } else if n < 181 + f {
        6
    } else if n < 212 + f {
        7
    } else if n < 243 + f {
        8
    } else if n < 273 + f {
        9
    } else if n < 304 + f {
        10
    } else if n < 334 + f {
        11
    } else {
        12
    };
    let c = Civil {
        year,
        month,
        day: n - days_before_month(year, month) + 1,
        hour: rest / 3600,
        minute: rest % 3600 / 60,
        second: rest % 60,
    };
    assert(valid_civil(c));
    assert(unix_seconds(c) == seconds);
}

/// The seconds of a valid calendar reading lie in the supported range.
pub proof fn lemma_civil_range(c: Civil)
    requires
        valid_civil(c),
    ensures
        MIN_SECONDS <= unix_seconds(c) <= MAX_SECONDS,
{
    lemma_months(c.year);
    if -9999 < c.year {
        lemma_year_monotonic(-9999, c.year);
    }
    lemma_year_step(c.year);
    lemma_year_monotonic(c.year, 10000);
}

/// No two calendar readings name the same second.
pub proof fn lemma_civil_unique(a: Civil, b: Civil)
    requires
        valid_civil(a),
        valid_civil(b),
        unix_seconds(a) == unix_seconds(b),
    ensures
        a == b,
{
    lemma_months(a.year);
    lemma_months(b.year);
    if a.year < b.year {
        lemma_year_monotonic(a.year, b.year);
    } else if b.year < a.year {
        lemma_year_monotonic(b.year, a.year);
    }
}

proof fn lemma_digit(n: int)
    requires
        0 <= n <= 9,
    ensures
        is_digit(digit(n)),
        digit_value(digit(n)) == n,
{
}

/// A number below a hundred, written in two digits.
proof fn lemma_two_digits(s: Seq<char>, i: int, n: int)
    requires
        0 <= n <= 99,
        s[i] == digit(n / 10),
        s[i + 1] == digit(n % 10),
    ensures
        is_digit(s[i]),
        is_digit(s[i + 1]),
        two_digits(s, i) == n,
{
    lemma_digit(n / 10);
    lemma_digit(n % 10);
}

/// The four digits of a year, taken two by two.
proof fn lemma_year_digits(y: int)
    requires
        0 <= y <= 9999,
    ensures
        0 <= y / 100 <= 99,
        0 <= y % 100 <= 99,
        y == y / 100 * 100 + y % 100,
        y / 1000 % 10 == y / 100 / 10,
        y / 10 % 10 == y % 100 / 10,
        y % 10 == y % 100 % 10,
{
}

/// Two digits are those of the number that they spell.
proof fn lemma_digits_of_pair(s: Seq<char>, i: int)
    requires
        is_digit(s[i]),
        is_digit(s[i + 1]),
    ensures
        0 <= two_digits(s, i) <= 99,
        s[i] == digit(two_digits(s, i) / 10),
        s[i + 1] == digit(two_digits(s, i) % 10),
{
    let a = digit_value(s[i]);
    let b = digit_value(s[i + 1]);
    assert((a * 10 + b) / 10 == a && (a * 10 + b) % 10 == b);
}

/// A text of stamp shape is what its fields are written as.
proof fn lemma_fields_written(s: Seq<char>)
    requires
        stamp_shape(s),
    ensures
        unsigned_stamp(fields_of(s, false)) == s,
{
    let c = fields_of(s, false);
    lemma_digits_of_pair(s, 0);
    lemma_digits_of_pair(s, 2);
    lemma_digits_of_pair(s, 5);
    lemma_digits_of_pair(s, 8);
    lemma_digits_of_pair(s, 11);
    lemma_digits_of_pair(s, 14);
    lemma_digits_of_pair(s, 17);
    let y = c.year;
    let high = two_digits(s, 0);
    let low = two_digits(s, 2);
    assert(y / 100 == high && y % 100 == low) by {
        assert(y == high * 100 + low && 0 <= low < 100);
    }
    lemma_year_digits(y);
    assert(y / 100 % 10 == high % 10);
    assert(unsigned_stamp(c) == s);
}

/// The written fields of a calendar reading are its fields.
proof fn lemma_fields_read_back(c: Civil)
    requires
        valid_civil(c),
    ensures
        stamp_shape(unsigned_stamp(c)),
        fields_of(unsigned_stamp(c), c.year < 0) == c,
{
    let s = unsigned_stamp(c);
    let y = if c.year < 0 {
        -c.year
    } else {
        c.year
    };
    lemma_year_digits(y);
    assert(c.day <= 31);
    lemma_two_digits(s, 0, y / 100);
    lemma_two_digits(s, 2, y % 100);
    lemma_two_digits(s, 5, c.month);
    lemma_two_digits(s, 8, c.day);
    lemma_two_digits(s, 11, c.hour);
    lemma_two_digits(s, 14, c.minute);
    lemma_two_digits(s, 17, c.second);
}

/// A stamp reads back as the second that it was written for.
pub proof fn lemma_stamp_reads_back(nanos: int)
    requires
        in_range(nanos),
    ensures
        stamp_seconds(stamp_text(nanos)) == Some(nanos / 1_000_000_000),
{
    let c = civil_of(nanos / 1_000_000_000);
    lemma_civil_exists(nanos / 1_000_000_000);
    lemma_fields_read_back(c);
    if c.year < 0 {
        assert(stamp_chars(c).skip(1) == unsigned_stamp(c));
    }
}

/// A year from 0 on is stamped in exactly twenty characters, the first of them
/// a digit; an earlier one takes a sign in front of them.
pub proof fn lemma_stamp_length(nanos: int)
    requires
        in_range(nanos),
    ensures
        nanos >= YEAR_ZERO_SECONDS * 1_000_000_000 ==> {
            &&& stamp_text(nanos).len() == 20
            &&& stamp_shape(stamp_text(nanos))
        },
        nanos < YEAR_ZERO_SECONDS * 1_000_000_000 ==> {
            &&& stamp_text(nanos).len() == 21
            &&& stamp_text(nanos)[0] == '-'
        },
{
    let seconds = nanos / 1_000_000_000;
    let c = civil_of(seconds);
    lemma_civil_exists(seconds);
    lemma_months(c.year);
    if c.year < 0 {
        lemma_year_step(c.year);
        lemma_year_monotonic(c.year, 0);
    } else if c.year > 0 {
        lemma_year_monotonic(0, c.year);
    }
    lemma_fields_read_back(c);
}

/// A stamp is made of digits, `-`, `:`, `T` and `Z`.
pub proof fn lemma_stamp_characters(nanos: int)
    requires
        in_range(nanos),
    ensures
        forall|i: int|
            0 <= i < stamp_text(nanos).len() ==> is_digit(#[trigger] stamp_text(nanos)[i])
                || stamp_text(nanos)[i] == '-' || stamp_text(nanos)[i] == ':' || stamp_text(
                nanos,
            )[i] == 'T' || stamp_text(nanos)[i] == 'Z',
        vstd::utf8::is_ascii_chars(stamp_text(nanos)),
{
    let c = civil_of(nanos / 1_000_000_000);
    lemma_civil_exists(nanos / 1_000_000_000);
    lemma_fields_read_back(c);
    let plain = unsigned_stamp(c);
    assert(stamp_shape(plain));
    let text = stamp_chars(c);
    assert forall|i: int| 0 <= i < text.len() implies is_digit(#[trigger] text[i]) || text[i] == '-'
        || text[i] == ':' || text[i] == 'T' || text[i] == 'Z' by {
        let j = if c.year < 0 {
            i - 1
        } else {
            i
        };
        if j >= 0 {
            assert(text[i] == plain[j]);
            assert(0 <= j < 20);
        }
    }
}

/// A text of the form `YYYY-MM-DDTHH:MM:SSZ` that names a second is the stamp of
/// that second.
pub proof fn lemma_unsigned_is_stamp(text: Seq<char>)
    requires
        unsigned_seconds(text, false) is Some,
    ensures
        ({
            let seconds = unsigned_seconds(text, false)->0;
            &&& YEAR_ZERO_SECONDS <= seconds <= MAX_SECONDS
            &&& text == stamp_text(seconds * 1_000_000_000)
        }),
{
    let c = fields_of(text, false);
    let seconds = unix_seconds(c);
    lemma_civil_range(c);
    lemma_civil_exists(seconds);
    lemma_civil_unique(c, civil_of(seconds));
    lemma_months(c.year);
    if c.year > 0 {
        lemma_year_monotonic(0, c.year);
    }
    lemma_fields_written(text);
}

/// Two moments have the same stamp exactly if they fall in the same second.
pub proof fn lemma_stamp_tells_seconds_apart(a: int, b: int)
    requires
        in_range(a),
        in_range(b),
    ensures
        stamp_text(a) == stamp_text(b) <==> a / 1_000_000_000 == b / 1_000_000_000,
{
    lemma_stamp_reads_back(a);
    lemma_stamp_reads_back(b);
}

/// Two digits at the same place decide as the numbers do that they spell.
proof fn lemma_pair_decides(s: Seq<char>, t: Seq<char>, i: int, n: int, m: int)
    requires
        s.len() == t.len(),
        0 <= i,
        i + 1 < s.len(),
        0 <= n < m <= 99,
        s[i] == digit(n / 10) && s[i + 1] == digit(n % 10),
        t[i] == digit(m / 10) && t[i + 1] == digit(m % 10),
        forall|j: int| 0 <= j < i ==> s[j] == t[j],
    ensures
        text_le(s, t),
        !text_le(t, s),
{
    if n / 10 < m / 10 {
        lemma_text_le_decided(s, t, i);
    } else {
        assert(n / 10 == m / 10 && n % 10 < m % 10);
        lemma_text_le_decided(s, t, i + 1);
    }
}

/// Whether the first field in which two calendar readings differ is smaller in
/// `a`.
spec fn fields_less(a: Civil, b: Civil) -> bool {
    if a.year != b.year {
        a.year < b.year
    } else if a.month != b.month {
        a.month < b.month
    } else if a.day != b.day {
        a.day < b.day
    } else if a.hour != b.hour {
        a.hour < b.hour
    } else if a.minute != b.minute {
        a.minute < b.minute
    } else {
        a.second < b.second
    }
}

proof fn lemma_month_order(year: int, a: int, b: int)
    requires
        1 <= a < b <= 12,
    ensures
        days_before_month(year, a) + days_in_month(year, a) <= days_before_month(year, b),
    decreases b - a,
{
    lemma_months(year);
    if a + 1 < b {
        lemma_month_order(year, a + 1, b);
    }
}

proof fn lemma_later_fields(a: Civil, b: Civil)
    requires
        valid_civil(a),
        valid_civil(b),
        fields_less(b, a),
    ensures
        unix_seconds(b) < unix_seconds(a),
{
    lemma_months(a.year);
    lemma_months(b.year);
    if b.year < a.year {
        lemma_year_monotonic(b.year, a.year);
    } else if b.month < a.month {
        lemma_month_order(a.year, b.month, a.month);
    }
}

/// Of two calendar readings from year 0 on, the one whose fields come first is
/// stamped with the text that sorts first.
proof fn lemma_fields_sort(a: Civil, b: Civil)
    requires
        valid_civil(a),
        valid_civil(b),
        a.year >= 0,
        b.year >= 0,
        fields_less(a, b),
    ensures
        text_le(stamp_chars(a), stamp_chars(b)),
        !text_le(stamp_chars(b), stamp_chars(a)),
{
    let s = unsigned_stamp(a);
    let t = unsigned_stamp(b);
    lemma_year_digits(a.year);
    lemma_year_digits(b.year);
    if a.year != b.year {
        if a.year / 100 < b.year / 100 {
            lemma_pair_decides(s, t, 0, a.year / 100, b.year / 100);
        } else {
            assert(a.year / 100 == b.year / 100);
            assert(a.year % 100 < b.year % 100);
            lemma_pair_decides(s, t, 2, a.year % 100, b.year % 100);
        }
    } else if a.month != b.month {
        lemma_pair_decides(s, t, 5, a.month, b.month);
    } else if a.day != b.day {
        assert(b.day <= 31);
        lemma_pair_decides(s, t, 8, a.day, b.day);
    } else if a.hour != b.hour {
        lemma_pair_decides(s, t, 11, a.hour, b.hour);
    } else if a.minute != b.minute {
        lemma_pair_decides(s, t, 14, a.minute, b.minute);
    } else {
        lemma_pair_decides(s, t, 17, a.second, b.second);
    }
}

/// The earlier of two calendar readings from year 0 on is stamped with the text
/// that sorts first.
proof fn lemma_earlier_sorts_first(a: Civil, b: Civil)
    requires
        valid_civil(a),
        valid_civil(b),
        a.year >= 0,
        b.year >= 0,
        unix_seconds(a) < unix_seconds(b),
    ensures
        text_le(stamp_chars(a), stamp_chars(b)),
        !text_le(stamp_chars(b), stamp_chars(a)),
{
    if fields_less(b, a) {
        lemma_later_fields(a, b);
    }
    assert(a != b);
    lemma_fields_sort(a, b);
}

/// From year 0 on, stamps have the form `YYYY-MM-DDTHH:MM:SSZ`, and sort as texts
/// in the order of time: two moments share a stamp exactly if they lie in the
/// same second.
pub proof fn law_stamps_sort_by_time(a: int, b: int)
    requires
        in_range(a),
        in_range(b),
        a >= YEAR_ZERO_SECONDS * 1_000_000_000,
        b >= YEAR_ZERO_SECONDS * 1_000_000_000,
    ensures
        stamp_shape(stamp_text(a)),
        text_le(stamp_text(a), stamp_text(b)) <==> a / 1_000_000_000 <= b / 1_000_000_000,
        stamp_text(a) == stamp_text(b) <==> a / 1_000_000_000 == b / 1_000_000_000,
{
    let first = a / 1_000_000_000;
    let second = b / 1_000_000_000;
    lemma_stamp_length(a);
    lemma_stamp_length(b);
    lemma_stamp_tells_seconds_apart(a, b);
    lemma_civil_exists(first);
    lemma_civil_exists(second);
    if first < second {
        lemma_earlier_sorts_first(civil_of(first), civil_of(second));
    } else if second < first {
        lemma_earlier_sorts_first(civil_of(second), civil_of(first));
    } else {
        lemma_text_le_itself(stamp_text(a));
    }
}

/// Whether a moment lies within the years -9999 to 9999.
pub open spec fn in_range(nanos: int) -> bool {
    MIN_SECONDS <= nanos / 1_000_000_000 <= MAX_SECONDS
}

/// 0000-01-01T00:00:00Z.
pub const YEAR_ZERO_SECONDS: i64 = -62167219200;

/// The shape of a stamp, as a format description of the `time` crate.
pub const STAMP_FORMAT: &'static str = "[year]-[month]-[day]T[hour]:[minute]:[second]Z";

/// A moment in UTC, to the nanosecond, within the years -9999 to 9999. Its view
/// is the number of nanoseconds since the Unix epoch.
#[derive(Debug, Clone, Copy, PartialEq, Eq)]
pub struct Moment {
    nanos: i128,
}

impl View for Moment {
    type V = int;

    closed spec fn view(&self) -> int {
        self.nanos as int
    }
}

impl Moment {
    #[verifier::type_invariant]
    spec fn supported(self) -> bool {
        in_range(self@)
    }

    /// The moment `nanos` nanoseconds after the epoch, if it is supported.
    pub fn from_unix_timestamp_nanos(nanos: i128) -> (r: Option<Moment>)
        ensures
            r is Some <==> in_range(nanos as int),
            r matches Some(m) ==> m@ == nanos,
    {
        if -377705116800_000_000_000 <= nanos && nanos <= 253402300799_999_999_999 {
            Some(Moment { nanos })
        } else {
            None
        }
    }

    /// The moment `seconds` seconds after the epoch, if it is supported.
    pub fn from_unix_timestamp(seconds: i64) -> (r: Option<Moment>)
        ensures
            r is Some <==> MIN_SECONDS <= seconds <= MAX_SECONDS,
            r matches Some(m) ==> m@ == seconds * 1_000_000_000,
    {
        if MIN_SECONDS <= seconds && seconds <= MAX_SECONDS {
            Some(Moment { nanos: seconds as i128 * 1_000_000_000 })
        } else {
            None
        }
    }

    /// Nanoseconds since the epoch.
    pub fn unix_timestamp_nanos(&self) -> (r: i128)
        ensures
            r == self@,
            in_range(r as int),
    {
        proof {
            use_type_invariant(self);
        }
        self.nanos
    }

    /// Whole seconds since the epoch, rounded down.
    pub fn unix_timestamp(&self) -> (r: i64)
        ensures
            r == self@ / 1_000_000_000,
    {
        proof {
            use_type_invariant(self);
        }
        if self.nanos >= 0 {
            (self.nanos / 1_000_000_000) as i64
        } else {
            (-((-(self.nanos + 1)) / 1_000_000_000) - 1) as i64
        }
    }
}

/// `time::OffsetDateTime::format`, on the UTC value that
/// `time::OffsetDateTime::from_unix_timestamp_nanos` gives for `nanos`: the
/// text of its calendar reading, every component but the year in two digits,
/// the year in four with a minus in front if it is negative.
#[verifier::external_body]
fn format_utc(nanos: i128, description: &str) -> (r: String)
    requires
        in_range(nanos as int),
        description@ == STAMP_FORMAT@,
    ensures
        r@ == stamp_text(nanos as int),
{
    let items = time::format_description::parse_borrowed::<1>(description).unwrap();
    let moment = time::OffsetDateTime::from_unix_timestamp_nanos(nanos).unwrap();
    moment.format(&items).unwrap()
}

/// `time::UtcDateTime::parse`, its result taken as whole seconds since the
/// epoch: the components are read with exactly their digits, the year with an
/// optional sign, nothing may follow, and the date and time must exist.
#[verifier::external_body]
fn parse_utc(text: &str, description: &str) -> (r: Option<i64>)
    requires
        description@ == STAMP_FORMAT@,
    ensures
        r matches Some(seconds) ==> stamp_seconds(text@) == Some(seconds as int),
        r is None ==> stamp_seconds(text@) is None,
{
    let items = time::format_description::parse_borrowed::<1>(description).unwrap();
    match time::UtcDateTime::parse(text, &items) {
        Ok(moment) => Some(moment.unix_timestamp()),
        Err(_) => None,
    }
}

/// The second-precision UTC stamp `YYYY-MM-DDTHH:MM:SSZ` of a moment.
pub fn stamp(moment: &Moment) -> (r: String)
    ensures
        r@ == stamp_text(moment@),
{
    format_utc(moment.unix_timestamp_nanos(), STAMP_FORMAT)
}

/// The moment that a stamp names, if it names one.
pub fn parse_stamp(text: &str) -> (r: Option<Moment>)
    ensures
        r is Some <==> stamp_seconds(text@) is Some,
        r matches Some(m) ==> stamp_seconds(text@) == Some(m@ / 1_000_000_000) && m@
            % 1_000_000_000 == 0,
{
    match parse_utc(text, STAMP_FORMAT) {
        Some(seconds) => {
            proof {
                let s = text@;
                if s.len() > 0 && s[0] == '-' {
                    lemma_civil_range(fields_of(s.skip(1), true));
                } else if s.len() > 0 && s[0] == '+' {
                    lemma_civil_range(fields_of(s.skip(1), false));
                } else {
                    lemma_civil_range(fields_of(s, false));
                }
            }
            Moment::from_unix_timestamp(seconds)
        },
        None => None,
    }
}

} // verus!
