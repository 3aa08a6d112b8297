//! How long archives are kept: reading the period, and deciding which archives
//! have outlived it.

use vstd::prelude::*;

use crate::calendar::{
    digit_value, in_range, is_digit, lemma_stamp_tells_seconds_apart, stamp, stamp_text, Moment,
    MAX_SECONDS, YEAR_ZERO_SECONDS,
};
use crate::config::{EncryptionType, RetentionPeriod};
use crate::naming::{
    archive_name_text, archive_seconds, archive_stamp, final_name_text,
    law_archives_are_recognised_exactly, law_files_are_called_by_name_and_stamp,
    law_other_names_are_left_alone,
};
use crate::text::{chars_of, decimal, same_text};

verus! {

/// A retention period that is not `unlimited`, `<N>d` or `<N>h`.
#[derive(Debug, Clone, Copy, PartialEq, Eq, Structural)]
pub struct RetentionParseError;

impl RetentionParseError {
    /// What the error says.
    pub fn message(&self) -> (r: String)
        ensures
            r@
                == "expected 'unlimited', or a positive integer followed by 'd' (days) or 'h' (hours)"@,
    {
        "expected 'unlimited', or a positive integer followed by 'd' (days) or 'h' (hours)".to_string()
    }
}

/// Whether `s` is one or more ASCII digits.
pub open spec fn all_digits(s: Seq<char>) -> bool {
    s.len() > 0 && forall|i: int| 0 <= i < s.len() ==> is_digit(#[trigger] s[i])
}

/// The number that the digits `s` spell.
pub open spec fn number_of(s: Seq<char>) -> int
    decreases s.len(),
{
    if s.len() == 0 {
        0
    } else {
        number_of(s.drop_last()) * 10 + digit_value(s.last())
    }
}

/// The period that `value` spells: `unlimited`, or a positive integer that fits
/// 64 bits (leading zeros are harmless) followed by exactly one `d` or `h`.
pub open spec fn period_of(value: Seq<char>) -> Option<RetentionPeriod> {
    let digits = value.drop_last();
    if value == "unlimited"@ {
        Some(RetentionPeriod::Unlimited)
    } else if value.len() == 0 || !all_digits(digits) || !(0 < number_of(digits) <= u64::MAX) {
        None
    } else if value.last() == 'd' {
        Some(RetentionPeriod::Days(number_of(digits) as u64))
    } else if value.last() == 'h' {
        Some(RetentionPeriod::Hours(number_of(digits) as u64))
    } else {
        None
    }
}

proof fn lemma_number_grows(s: Seq<char>, i: int)
    requires
        all_digits(s),
        0 <= i <= s.len(),
    ensures
        0 <= number_of(s.take(i)) <= number_of(s),
    decreases s.len() - i,
{
    if i == s.len() {
        assert(s.take(i) == s);
        lemma_number_nonnegative(s);
    } else {
        lemma_number_grows(s, i + 1);
        assert(s.take(i + 1).drop_last() == s.take(i));
        assert(is_digit(s[i]));
        assert forall|j: int| 0 <= j < s.take(i).len() implies is_digit(#[trigger] s.take(i)[j]) by {
            assert(is_digit(s[j]));
        }
        lemma_number_nonnegative(s.take(i));
    }
}

proof fn lemma_number_nonnegative(s: Seq<char>)
    requires
        forall|i: int| 0 <= i < s.len() ==> is_digit(#[trigger] s[i]),
    ensures
        number_of(s) >= 0,
    decreases s.len(),
{
    if s.len() > 0 {
        assert forall|j: int| 0 <= j < s.drop_last().len() implies is_digit(
            #[trigger] s.drop_last()[j],
        ) by {
            assert(is_digit(s[j]));
        }
        lemma_number_nonnegative(s.drop_last());
        assert(is_digit(s.last()));
    }
}

/// The number that the first `count` characters spell, if they are digits and
/// it fits 64 bits.
fn read_number(chars: &Vec<char>, count: usize) -> (r: Option<u64>)
    requires
        count <= chars@.len(),
    ensures
        ({
            let digits = chars@.take(count as int);
            match r {
                Some(n) => all_digits(digits) && number_of(digits) == n,
                None => !all_digits(digits) || number_of(digits) > u64::MAX,
            }
        }),
{
    let ghost digits = chars@.take(count as int);
    if count == 0 {
        return None;
    }
    for i in 0..count
        invariant
            count <= chars@.len(),
            digits == chars@.take(count as int),
            forall|j: int| 0 <= j < i ==> is_digit(#[trigger] digits[j]),
    {
        let c: char = chars[i];
        if c < '0' || c > '9' {
            assert(!is_digit(digits[i as int]));
            return None;
        }
        assert(digits[i as int] == c);
    }
    assert(all_digits(digits));
    let mut n: u64 = 0;
    assert(digits.take(0) == Seq::<char>::empty());
    for i in 0..count
        invariant
            count <= chars@.len(),
            digits == chars@.take(count as int),
            all_digits(digits),
            n == number_of(digits.take(i as int)),
    {
        let ghost here = digits.take(i + 1);
        assert(here.drop_last() == digits.take(i as int));
        proof {
            lemma_number_grows(digits, i + 1);
        }
        assert(is_digit(digits[i as int]));
        let value: u64 = (chars[i] as u32 - 48) as u64;
        if n > u64::MAX / 10 || n * 10 > u64::MAX - value {
            return None;
        }
        n = n * 10 + value;
    }
    assert(digits.take(count as int) == digits);
    Some(n)
}

/// Read a retention period.
pub fn parse_retention_period(value: &str) -> (r: Result<RetentionPeriod, RetentionParseError>)
    ensures
        r == match period_of(value@) {
            Some(period) => Ok::<RetentionPeriod, RetentionParseError>(period),
            None => Err(RetentionParseError),
        },
{
    if same_text(value, "unlimited") {
        return Ok(RetentionPeriod::Unlimited);
    }
    let chars = chars_of(value);
    if chars.len() == 0 {
        return Err(RetentionParseError);
    }
    let last: usize = chars.len() - 1;
    assert(chars@.take(last as int) == value@.drop_last());
    match read_number(&chars, last) {
        None => Err(RetentionParseError),
        Some(n) => if n == 0 {
            Err(RetentionParseError)
        } else if chars[last] == 'd' {
            Ok(RetentionPeriod::Days(n))
        } else if chars[last] == 'h' {
            Ok(RetentionPeriod::Hours(n))
        } else {
            Err(RetentionParseError)
        },
    }
}

proof fn lemma_decimal_reads_back(n: nat)
    ensures
        all_digits(decimal(n)),
        number_of(decimal(n)) == n,
    decreases n,
{
    let text = decimal(n);
    if n < 10 {
        assert(text.drop_last() == Seq::<char>::empty());
        assert(number_of(text.drop_last()) == 0);
        assert(digit_value(text.last()) == n);
    } else {
        lemma_decimal_reads_back(n / 10);
        assert(digit_value(text.last()) == n % 10);
        let rest = decimal(n / 10);
        assert(text.drop_last() == rest);
        assert forall|i: int| 0 <= i < text.len() implies is_digit(#[trigger] text[i]) by {
            if i < rest.len() {
                assert(is_digit(rest[i]));
            }
        }
    }
}

/// Every positive number of days and of hours can be written, and reads back as
/// that many.
pub proof fn law_periods_read_back(n: u64)
    requires
        n > 0,
    ensures
        period_of(decimal(n as nat).push('d')) == Some(RetentionPeriod::Days(n)),
        period_of(decimal(n as nat).push('h')) == Some(RetentionPeriod::Hours(n)),
        period_of("unlimited"@) == Some(RetentionPeriod::Unlimited),
{
    let digits = decimal(n as nat);
    lemma_decimal_reads_back(n as nat);
    reveal_strlit("unlimited");
    assert(is_digit(digits[0]));
    assert(digits.push('d')[0] == digits[0] && digits.push('h')[0] == digits[0]);
    assert("unlimited"@[0] == 'u');
    assert(digits.push('d').drop_last() == digits);
    assert(digits.push('h').drop_last() == digits);
}

/// Nanoseconds in `period`; none for `Unlimited`.
pub open spec fn period_nanos(period: RetentionPeriod) -> Option<int> {
    match period {
        RetentionPeriod::Unlimited => None,
        RetentionPeriod::Days(n) => Some(n * 86_400_000_000_000),
        RetentionPeriod::Hours(n) => Some(n * 3_600_000_000_000),
    }
}

/// Nanoseconds in `period`; `None` for `Unlimited`.
pub fn retention_nanos(period: &RetentionPeriod) -> (r: Option<i128>)
    ensures
        match r {
            Some(n) => period_nanos(*period) == Some(n as int),
            None => period_nanos(*period) is None,
        },
{
    match *period {
        RetentionPeriod::Unlimited => None,
        RetentionPeriod::Days(n) => Some(n as i128 * 86_400_000_000_000),
        RetentionPeriod::Hours(n) => Some(n as i128 * 3_600_000_000_000),
    }
}

/// Whether an archive stamped at `archived` has outlived `period` at `now`. What
/// is exactly as old as the period stays, and so does the archive that bears
/// the run's own stamp.
pub open spec fn outlived(
    own_stamp: Seq<char>,
    archived: int,
    now: int,
    period: RetentionPeriod,
) -> bool {
    &&& stamp_text(archived) != own_stamp
    &&& period_nanos(period) is Some
    &&& archived < now - period_nanos(period)->0
}

/// Whether an archive stamped at `archived` is to be deleted under `period`, as
/// of `now`.
pub fn should_delete(
    own_stamp: &str,
    archived: &Moment,
    now: &Moment,
    period: &RetentionPeriod,
) -> (r: bool)
    ensures
        r == outlived(own_stamp@, archived@, now@, *period),
{
    if same_text(stamp(archived).as_str(), own_stamp) {
        return false;
    }
    match retention_nanos(period) {
        None => false,
        Some(nanos) => archived.unix_timestamp_nanos() < now.unix_timestamp_nanos() - nanos,
    }
}

/// Whether a file of this name is an archive of `name` that has outlived
/// `period`. The cleanup of a local target goes by this.
pub open spec fn expired(
    file_name: Seq<char>,
    name: Seq<char>,
    own_stamp: Seq<char>,
    now: int,
    period: RetentionPeriod,
) -> bool {
    match archive_seconds(file_name, name) {
        Some(seconds) => outlived(own_stamp, seconds * 1_000_000_000, now, period),
        None => false,
    }
}

/// Whether a file of this name is an archive of `name` that has outlived
/// `period`.
pub fn is_expired(
    file_name: &str,
    name: &str,
    own_stamp: &str,
    now: &Moment,
    period: &RetentionPeriod,
) -> (r: bool)
    ensures
        r == expired(file_name@, name@, own_stamp@, now@, *period),
{
    match archive_stamp(file_name, name) {
        Some(archived) => should_delete(own_stamp, &archived, now, period),
        None => false,
    }
}

/// The archive of the run itself is never deleted, however long the run took.
pub proof fn law_own_archive_is_kept(started: int, archived: int, now: int, period: RetentionPeriod)
    requires
        in_range(started),
        in_range(archived),
        archived / 1_000_000_000 == started / 1_000_000_000,
    ensures
        !outlived(stamp_text(started), archived, now, period),
{
    lemma_stamp_tells_seconds_apart(started, archived);
}

/// An unlimited period deletes nothing.
pub proof fn law_unlimited_keeps_everything(own_stamp: Seq<char>, archived: int, now: int)
    ensures
        !outlived(own_stamp, archived, now, RetentionPeriod::Unlimited),
{
}

/// An archive is deleted when it is strictly older than the period, to the
/// nanosecond, unless it is the run's own.
pub proof fn law_only_strictly_older_is_deleted(
    own_stamp: Seq<char>,
    archived: int,
    now: int,
    period: RetentionPeriod,
)
    requires
        period_nanos(period) is Some,
        stamp_text(archived) != own_stamp,
    ensures
        outlived(own_stamp, archived, now, period) <==> now - archived > period_nanos(period)->0,
{
}

/// What has been outlived stays so: a later moment, a shorter period and an
/// older archive are all deleted too, the run's own archive excepted.
pub proof fn law_deletion_is_monotonic(
    own_stamp: Seq<char>,
    archived: int,
    older: int,
    now: int,
    later: int,
    period: RetentionPeriod,
    shorter: RetentionPeriod,
)
    requires
        outlived(own_stamp, archived, now, period),
        older <= archived,
        now <= later,
        period_nanos(shorter) is Some,
        period_nanos(shorter)->0 <= period_nanos(period)->0,
        stamp_text(older) != own_stamp,
    ensures
        outlived(own_stamp, older, later, shorter),
{
}

/// The archives of another name are never expired under this one.
pub proof fn law_other_names_never_expire(
    own: Seq<char>,
    other: Seq<char>,
    nanos: int,
    encryption: EncryptionType,
    own_stamp: Seq<char>,
    now: int,
    period: RetentionPeriod,
)
    requires
        own != other,
        in_range(nanos),
        nanos >= YEAR_ZERO_SECONDS * 1_000_000_000,
    ensures
        !expired(
            final_name_text(archive_name_text(other, stamp_text(nanos)), encryption),
            own,
            own_stamp,
            now,
            period,
        ),
{
    law_other_names_are_left_alone(other, own, nanos, encryption);
}

/// The age at which an archive goes, in numbers: under `n` hours it goes exactly
/// if it is older than `n` times 3600 seconds, under `n` days exactly if it is
/// older than `n` times 86400 seconds, to the nanosecond. One that bears the run's
/// own stamp never goes, and without a limit none does.
pub proof fn law_age_is_measured_in_hours_and_days(
    own_stamp: Seq<char>,
    archived: int,
    now: int,
    n: u64,
)
    ensures
        stamp_text(archived) != own_stamp ==> {
            &&& outlived(own_stamp, archived, now, RetentionPeriod::Hours(n)) <==> now - archived
                > (n as int) * 3600 * 1_000_000_000
            &&& outlived(own_stamp, archived, now, RetentionPeriod::Days(n)) <==> now - archived
                > (n as int) * 86400 * 1_000_000_000
        },
        stamp_text(archived) == own_stamp ==> {
            &&& !outlived(own_stamp, archived, now, RetentionPeriod::Hours(n))
            &&& !outlived(own_stamp, archived, now, RetentionPeriod::Days(n))
        },
        !outlived(own_stamp, archived, now, RetentionPeriod::Unlimited),
        period_nanos(RetentionPeriod::Hours(n)) == Some((n as int) * 3600 * 1_000_000_000),
        period_nanos(RetentionPeriod::Days(n)) == Some((n as int) * 86400 * 1_000_000_000),
        period_nanos(RetentionPeriod::Unlimited) is None,
{
}

/// A period is read exactly if it is `unlimited`, or digits alone that spell a
/// positive number of at most 64 bits, with one `d` or one `h` behind them.
pub proof fn law_periods_are_read_exactly(value: Seq<char>, n: u64)
    ensures
        period_of(value) == Some(RetentionPeriod::Days(n)) <==> {
            &&& value.len() > 1 && value.last() == 'd' && n > 0
            &&& forall|i: int| 0 <= i < value.len() - 1 ==> '0' <= #[trigger] value[i] <= '9'
            &&& number_of(value.drop_last()) == n
        },
        period_of(value) == Some(RetentionPeriod::Hours(n)) <==> {
            &&& value.len() > 1 && value.last() == 'h' && n > 0
            &&& forall|i: int| 0 <= i < value.len() - 1 ==> '0' <= #[trigger] value[i] <= '9'
            &&& number_of(value.drop_last()) == n
        },
        period_of(value) == Some(RetentionPeriod::Unlimited) <==> value == seq![
            'u',
            'n',
            'l',
            'i',
            'm',
            'i',
            't',
            'e',
            'd',
        ],
{
    reveal_strlit("unlimited");
    let word = seq!['u', 'n', 'l', 'i', 'm', 'i', 't', 'e', 'd'];
    assert("unlimited"@ == word);
    let digits = value.drop_last();
    if value.len() > 0 {
        assert forall|i: int| 0 <= i < digits.len() && all_digits(digits) implies '0'
            <= #[trigger] value[i] <= '9' by {
            assert(is_digit(digits[i]));
        }
        if forall|i: int| 0 <= i < value.len() - 1 ==> '0' <= #[trigger] value[i] <= '9' {
            assert forall|i: int| 0 <= i < digits.len() implies is_digit(#[trigger] digits[i]) by {
                assert('0' <= value[i] <= '9');
            }
            if value.len() > 1 {
                assert(value[0] != 'u');
                assert(word[0] == 'u');
            }
        }
    }
}

/// Digits spell a number in the usual way: each further one is ten times what
/// stands before it, and itself.
pub proof fn law_digits_spell_a_number(digits: Seq<char>, c: char)
    ensures
        number_of(Seq::empty()) == 0,
        number_of(digits.push(c)) == number_of(digits) * 10 + (c as int - 48),
{
    assert(digits.push(c).drop_last() == digits);
}

/// Which files are expired archives, in plain terms: those called by the run's
/// name, a hyphen, the stamp of a second from year 0 on, and `.tgz` or `.tgz.gpg`,
/// whose second lies further back than the period, and whose stamp is not the
/// run's own.
pub proof fn law_expired_archives_are_these(
    file_name: Seq<char>,
    name: Seq<char>,
    own_stamp: Seq<char>,
    now: int,
    n: u64,
)
    ensures
        expired(file_name, name, own_stamp, now, RetentionPeriod::Hours(n)) <==> exists|
            seconds: int,
        | #[trigger]
            is_archive_of(file_name, name, seconds) && stamp_text(seconds * 1_000_000_000)
                != own_stamp && now - seconds * 1_000_000_000 > (n as int) * 3600 * 1_000_000_000,
        expired(file_name, name, own_stamp, now, RetentionPeriod::Days(n)) <==> exists|
            seconds: int,
        | #[trigger]
            is_archive_of(file_name, name, seconds) && stamp_text(seconds * 1_000_000_000)
                != own_stamp && now - seconds * 1_000_000_000 > (n as int) * 86400 * 1_000_000_000,
        !expired(file_name, name, own_stamp, now, RetentionPeriod::Unlimited),
{
    assert forall|seconds: int| #[trigger]
        is_archive_of(file_name, name, seconds) <==> archive_seconds(file_name, name) == Some(
        seconds,
    ) by {
        law_archives_are_recognised_exactly(file_name, name, seconds);
        law_files_are_called_by_name_and_stamp(name, stamp_text(seconds * 1_000_000_000), 0);
    }
    if archive_seconds(file_name, name) is Some {
        assert(is_archive_of(file_name, name, archive_seconds(file_name, name)->0));
    }
}

/// Whether a file is called as an archive of `name` that was stamped at `seconds`.
pub open spec fn is_archive_of(file_name: Seq<char>, name: Seq<char>, seconds: int) -> bool {
    let plain = name + seq!['-'] + stamp_text(seconds * 1_000_000_000) + seq!['.', 't', 'g', 'z'];
    &&& YEAR_ZERO_SECONDS <= seconds <= MAX_SECONDS
    &&& file_name == plain || file_name == plain + seq!['.', 'g', 'p', 'g']
}

} // verus!
