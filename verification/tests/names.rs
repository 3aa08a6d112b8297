//! Names of archives, their stamps, and how long they are kept.

use vaultwarden_backup::calendar::parse_stamp;
use vaultwarden_backup::naming::{
    archive_name, check_archive_name, final_name, part_name, NameError, MAX_NAME_BYTES,
};
use vaultwarden_backup::retention::{
    is_expired, parse_retention_period, retention_nanos, RetentionParseError,
};
use vaultwarden_backup::{
    archive_stamp, should_delete, stamp, EncryptionType, Moment, RetentionPeriod,
};

fn at(seconds: i64) -> Moment {
    Moment::from_unix_timestamp(seconds).unwrap()
}

#[test]
fn stamp_format_is_iso8601_utc() {
    let dt = at(1_784_718_299);
    assert_eq!(stamp(&dt), "2026-07-22T11:04:59Z");
}

#[test]
fn stamp_of_now_is_well_formed() {
    let now = time::OffsetDateTime::now_utc().unix_timestamp_nanos();
    let s = stamp(&Moment::from_unix_timestamp_nanos(now).unwrap());
    assert_eq!(s.len(), 20, "expected %Y-%m-%dT%H:%M:%SZ, got {s:?}");
    assert!(s.ends_with('Z'));
    assert_eq!(&s[4..5], "-");
    assert_eq!(&s[10..11], "T");
    assert_eq!(&s[13..14], ":");
}

#[test]
fn stamps_at_the_ends_of_the_calendar() {
    assert_eq!(stamp(&at(0)), "1970-01-01T00:00:00Z");
    assert_eq!(stamp(&at(-1)), "1969-12-31T23:59:59Z");
    assert_eq!(stamp(&at(951_782_400)), "2000-02-29T00:00:00Z");
    assert_eq!(stamp(&at(253_402_300_799)), "9999-12-31T23:59:59Z");
    assert_eq!(stamp(&at(-62_167_219_200)), "0000-01-01T00:00:00Z");
    assert_eq!(stamp(&at(-62_167_219_201)), "-0001-12-31T23:59:59Z");
    assert_eq!(stamp(&at(-377_705_116_800)), "-9999-01-01T00:00:00Z");
    assert!(Moment::from_unix_timestamp(253_402_300_800).is_none());
    assert!(Moment::from_unix_timestamp(-377_705_116_801).is_none());
}

#[test]
fn stamps_sort_in_the_order_of_time() {
    let moments = [
        -62_167_219_200, -1, 0, 59, 60, 3599, 3600, 86_399, 86_400, 951_782_400, 951_868_800,
        1_784_718_299, 253_402_300_799,
    ];
    for a in moments {
        for b in moments {
            assert_eq!(stamp(&at(a)) <= stamp(&at(b)), a <= b, "{a} {b}");
        }
    }
}

#[test]
fn a_stamp_drops_the_fraction_of_a_second() {
    let half = Moment::from_unix_timestamp_nanos(1_500_000_000).unwrap();
    assert_eq!(stamp(&half), "1970-01-01T00:00:01Z");
    let before = Moment::from_unix_timestamp_nanos(-1).unwrap();
    assert_eq!(stamp(&before), "1969-12-31T23:59:59Z");
}

#[test]
fn stamps_read_back() {
    for seconds in [0, -1, 951_782_400, 1_784_718_299, 253_402_300_799, -62_167_219_201] {
        let moment = at(seconds);
        let read = parse_stamp(&stamp(&moment)).unwrap();
        assert_eq!(read.unix_timestamp(), seconds);
        assert_eq!(read.unix_timestamp_nanos(), seconds as i128 * 1_000_000_000);
    }
    assert_eq!(parse_stamp("+2020-01-01T00:00:00Z").unwrap().unix_timestamp(), 1_577_836_800);
    for zero in ["0000-01-01T00:00:00Z", "-0000-01-01T00:00:00Z", "+0000-01-01T00:00:00Z"] {
        assert_eq!(parse_stamp(zero).unwrap().unix_timestamp(), -62_167_219_200, "{zero:?}");
    }
    assert_eq!(
        parse_stamp("-9999-01-01T00:00:00Z").unwrap().unix_timestamp(),
        -377_705_116_800
    );
    for bad in [
        "", "2020-01-01", "2020-13-01T00:00:00Z", "2021-02-29T00:00:00Z", "2020-01-01T24:00:00Z",
        "2020-01-01T00:60:00Z", "2020-01-01T00:00:60Z", "2020-01-01T00:00:00", "2020-01-01T00:00:00Zx",
        "020-01-01T00:00:00Z", " 2020-01-01T00:00:00Z", "2020-1-01T00:00:00Z",
        "2020-01-01t00:00:00z", "+12020-01-01T00:00:00Z", "12020-01-01T00:00:00Z",
        "--020-01-01T00:00:00Z", "2020-00-01T00:00:00Z", "2020-01-00T00:00:00Z",
        "2020-01-01 00:00:00Z", "2020-01-01T00:00:0٣Z", "20 0-01-01T00:00:00Z", "-",
    ] {
        assert!(parse_stamp(bad).is_none(), "{bad:?}");
    }
}

#[test]
fn archive_stamp_round_trips_both_extensions() {
    let now = at(1_784_718_299);
    let s = stamp(&now);
    assert_eq!(archive_stamp(&format!("vault-{s}.tgz"), "vault"), Some(now));
    assert_eq!(archive_stamp(&format!("vault-{s}.tgz.gpg"), "vault"), Some(now));
}

#[test]
fn archive_stamp_rejects_other_names() {
    let now = at(1_784_718_299);
    let s = stamp(&now);
    // Different archive name: the prefix does not line up.
    assert_eq!(archive_stamp(&format!("other-{s}.tgz"), "vault"), None);
    // Not an archive of this name at all.
    assert_eq!(archive_stamp("vault.tgz", "vault"), None);
    // A name with no parseable stamp in between.
    assert_eq!(archive_stamp("vault-nothing.tgz", "vault"), None);
    // Right prefix, but the middle is not a stamp.
    assert_eq!(archive_stamp("vault-2020-01-01.tgz", "vault"), None);
    // Wrong extension.
    assert_eq!(archive_stamp(&format!("vault-{s}.tar"), "vault"), None);
}

#[test]
fn archives_of_a_longer_name_are_left_alone() {
    // The archive of the name `v-`, and of names that begin with `v`.
    assert_eq!(archive_stamp("v--2020-01-01T00:00:00Z.tgz", "v"), None);
    assert_eq!(archive_stamp("v-+2020-01-01T00:00:00Z.tgz", "v"), None);
    assert_eq!(archive_stamp("v-w-2020-01-01T00:00:00Z.tgz", "v"), None);
    assert!(archive_stamp("v--2020-01-01T00:00:00Z.tgz", "v-").is_some());
    // What a delivery leaves behind on its way is no archive.
    assert_eq!(archive_stamp("v-2020-01-01T00:00:00Z.tgz.part.1", "v"), None);
    assert_eq!(archive_stamp("v-2020-01-01T00:00:00Z.tgz.gpg.gpg", "v"), None);
}

#[test]
fn names_are_built_as_they_are_read() {
    let archive = archive_name("vault", "2026-07-22T11:04:59Z");
    assert_eq!(archive, "vault-2026-07-22T11:04:59Z.tgz");
    assert_eq!(final_name(&archive, EncryptionType::Plaintext), archive);
    let encrypted = final_name(&archive, EncryptionType::Openpgp);
    assert_eq!(encrypted, "vault-2026-07-22T11:04:59Z.tgz.gpg");
    assert_eq!(part_name(&encrypted, 4_294_967_295), format!("{encrypted}.part.4294967295"));
    assert_eq!(part_name("a", 0), "a.part.0");
    for name in [archive, encrypted] {
        assert_eq!(archive_stamp(&name, "vault"), Some(at(1_784_718_299)));
    }
}

#[test]
fn the_longest_file_name_fits() {
    let name = "a".repeat(MAX_NAME_BYTES);
    let file = final_name(&archive_name(&name, "2026-07-22T11:04:59Z"), EncryptionType::Openpgp);
    assert!(part_name(&file, u32::MAX).len() <= 255);
}

#[test]
fn should_delete_applies_the_period_boundary() {
    let now = at(1_784_718_299);
    let one_day = 86_400;
    let old = at(now.unix_timestamp() - one_day - 1);
    let fresh = at(now.unix_timestamp() - 1);
    let exactly = at(now.unix_timestamp() - one_day);
    let period = RetentionPeriod::Days(1);
    assert!(
        should_delete("irrelevant", &old, &now, &period),
        "older than a day is deleted"
    );
    assert!(
        !should_delete("irrelevant", &fresh, &now, &period),
        "fresh archive is kept"
    );
    assert!(
        !should_delete("irrelevant", &exactly, &now, &period),
        "exactly at the period is kept (strictly-older wins)"
    );
    assert!(
        !should_delete("irrelevant", &old, &now, &RetentionPeriod::Unlimited),
        "unlimited never deletes"
    );
}

#[test]
fn should_delete_skips_this_runs_own_stamp() {
    let now = at(1_784_718_299);
    let old = at(now.unix_timestamp() - 86_400 - 1);
    let period = RetentionPeriod::Days(1);
    // Even an old archive is skipped when its stamp is this run's own
    // stamp: the short-circuit wins before the age check.
    assert!(
        !should_delete(&stamp(&old), &old, &now, &period),
        "own-stamp short-circuit beats an old stamp"
    );
}

#[test]
fn deletion_is_decided_to_the_nanosecond() {
    let now = Moment::from_unix_timestamp_nanos(7_200_000_000_001).unwrap();
    let hour = RetentionPeriod::Hours(1);
    assert!(should_delete("x", &at(3600), &now, &hour));
    let now = Moment::from_unix_timestamp_nanos(7_200_000_000_000).unwrap();
    assert!(!should_delete("x", &at(3600), &now, &hour));
    // What is deleted at a moment is deleted later, and under a shorter period.
    assert!(should_delete("x", &at(0), &at(7201), &RetentionPeriod::Hours(2)));
    assert!(should_delete("x", &at(0), &at(9000), &RetentionPeriod::Hours(2)));
    assert!(should_delete("x", &at(0), &at(7201), &RetentionPeriod::Hours(1)));
    // A period that no calendar holds does not overflow.
    assert!(!should_delete("x", &at(0), &at(253_402_300_799), &RetentionPeriod::Days(u64::MAX)));
}

#[test]
fn retention_nanos_of_each_period() {
    assert_eq!(retention_nanos(&RetentionPeriod::Unlimited), None);
    assert_eq!(retention_nanos(&RetentionPeriod::Days(2)), Some(172_800_000_000_000));
    assert_eq!(retention_nanos(&RetentionPeriod::Hours(3)), Some(10_800_000_000_000));
}

#[test]
fn only_own_archives_expire() {
    let now = at(1_784_718_299);
    let week = RetentionPeriod::Days(7);
    assert!(is_expired("vault-2020-01-01T00:00:00Z.tgz", "vault", "x", &now, &week));
    assert!(is_expired("vault-2020-01-01T00:00:00Z.tgz.gpg", "vault", "x", &now, &week));
    assert!(!is_expired("other-2020-01-01T00:00:00Z.tgz", "vault", "x", &now, &week));
    assert!(!is_expired("vault-2026-07-22T10:00:00Z.tgz", "vault", "x", &now, &week));
    assert!(!is_expired("notes.txt", "vault", "x", &now, &week));
}

#[test]
fn archive_name_with_slash_or_nul_is_rejected() {
    assert!(check_archive_name("a/b").is_err());
    assert!(
        check_archive_name("a\\b").is_ok(),
        "only '/' (and NUL) break file names"
    );
    assert!(check_archive_name("\0").is_err());
    assert!(check_archive_name("").is_err());
    assert!(
        check_archive_name("正常-名字 v1").is_ok(),
        "non-ASCII names are fine"
    );
}

#[test]
fn archive_name_too_long_is_rejected() {
    assert!(check_archive_name(&"a".repeat(MAX_NAME_BYTES)).is_ok());
    assert!(
        check_archive_name(&"a".repeat(MAX_NAME_BYTES + 1)).is_err(),
        "one byte over the cap must fail"
    );
    // The cap counts bytes, not characters: 100 multi-byte chars are 300
    // bytes and must fail even though the char count is low.
    assert!(
        check_archive_name(&"界".repeat(100)).is_err(),
        "multi-byte names are capped in bytes"
    );
}

#[test]
fn refused_names_say_why() {
    let message = |name: &str| check_archive_name(name).unwrap_err().message(name);
    assert_eq!(message(""), "--name must not be empty");
    assert_eq!(message("a/\"b"), "--name must not contain '/' or NUL: \"a/\\\"b\"");
    assert_eq!(message("a\0"), "--name must not contain '/' or NUL: \"a\\0\"");
    assert_eq!(
        message(&"界".repeat(100)),
        "--name is too long: 300 bytes (max 200; the final file is \
         `<name>-<UTC stamp>.tgz[.gpg]`, and delivery adds a `.part`)"
    );
    assert_eq!(check_archive_name(&"a".repeat(201)), Err(NameError::TooLong { bytes: 201 }));
    assert_eq!(check_archive_name("/"), Err(NameError::Forbidden));
    assert_eq!(check_archive_name(""), Err(NameError::Empty));
}

#[test]
fn parse_retention_period_accepts_valid_forms() {
    assert_eq!(
        parse_retention_period("unlimited").unwrap(),
        RetentionPeriod::Unlimited
    );
    assert_eq!(parse_retention_period("7d").unwrap(), RetentionPeriod::Days(7));
    assert_eq!(parse_retention_period("1h").unwrap(), RetentionPeriod::Hours(1));
    assert_eq!(
        parse_retention_period("3650d").unwrap(),
        RetentionPeriod::Days(3650)
    );
}

#[test]
fn parse_retention_period_rejects_invalid_forms() {
    // Zero is not a positive integer; the unit must be 'd' or 'h'; the
    // number must be unsigned digits. Each of these must be rejected.
    for bad in [
        "0d", "0h", "0", "d", "h", "1x", "+1d", "-1d", "abc", "", "1.5d", "d1", "dh",
    ] {
        assert!(
            parse_retention_period(bad).is_err(),
            "{bad:?} must be rejected"
        );
    }
}

#[test]
fn retention_periods_at_their_limits() {
    assert_eq!(parse_retention_period("007d"), Ok(RetentionPeriod::Days(7)));
    assert_eq!(
        parse_retention_period("18446744073709551615h"),
        Ok(RetentionPeriod::Hours(u64::MAX))
    );
    for bad in ["18446744073709551616h", "99999999999999999999d", "Unlimited", "1D", "1日", "٣d"] {
        assert_eq!(parse_retention_period(bad), Err(RetentionParseError), "{bad:?}");
    }
    assert_eq!(
        RetentionParseError.message(),
        "expected 'unlimited', or a positive integer followed by 'd' (days) or 'h' (hours)"
    );
}
