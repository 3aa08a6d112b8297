//! Object keys, the client's settings, uploads, and the cleanup of a bucket.

use vaultwarden_backup::failure::Failure;
use vaultwarden_backup::location::{location, object_stamp};
use vaultwarden_backup::path::FilePath;
use vaultwarden_backup::s3::{
    cleanup_retention, client, client_failure, ensure_object_free, join_prefix, list_prefix,
    retention_keys_to_delete, upload, Head, Prune, PruneReply, PruneStage, Upload,
    UploadReply, UploadStage,
};
use vaultwarden_backup::{
    archive_stamp, Delivered, Moment, RetentionPeriod, S3Addressing, S3Target,
};

fn at(seconds: i64) -> Moment {
    Moment::from_unix_timestamp(seconds).unwrap()
}

fn target(endpoint: &str, addressing: S3Addressing) -> S3Target {
    S3Target {
        endpoint: endpoint.to_string(),
        region: "us-east-1".to_string(),
        access_key: "ak".to_string(),
        secret_key: "sk".to_string(),
        bucket: "bkt".to_string(),
        prefix: "/".to_string(),
        addressing,
    }
}

#[test]
fn join_prefix_bucket_root_forms() {
    // Both spellings mean "bucket root": the bare file name, no slash.
    assert_eq!(join_prefix("/", "a.tgz"), "a.tgz");
    assert_eq!(join_prefix("", "a.tgz"), "a.tgz");
    assert_eq!(join_prefix("///", "a.tgz"), "a.tgz");
}

#[test]
fn join_prefix_trims_and_joins() {
    assert_eq!(join_prefix("weekly", "a.tgz"), "weekly/a.tgz");
    assert_eq!(join_prefix("weekly/", "a.tgz"), "weekly/a.tgz");
    assert_eq!(join_prefix("/host-a/", "a.tgz"), "host-a/a.tgz");
    assert_eq!(join_prefix("a/b", "a.tgz"), "a/b/a.tgz");
}

#[test]
fn retention_keys_to_delete_selects_only_expired_own_archives() {
    let now = at(1_784_718_299);
    let period = RetentionPeriod::Days(7);
    // Expired own archive (2020) is deleted; the fresh own archive and
    // the foreign key (different name) are kept. The deep key is parsed
    // from its final segment, which is a foreign name, so it is kept.
    let keys = vec![
        "ret/vault-2020-01-01T00:00:00Z.tgz".to_string(),
        "ret/vault-2026-07-22T10:00:00Z.tgz".to_string(),
        "ret/other-2020-01-01T00:00:00Z.tgz".to_string(),
        "ret/deep/other-2020-01-01T00:00:00Z.tgz".to_string(),
    ];
    let deleted = retention_keys_to_delete(&now, "vault", "irrelevant", &period, &keys);
    assert_eq!(deleted, vec!["ret/vault-2020-01-01T00:00:00Z.tgz"]);
    // This run's own stamp is never deleted, even an old one: the
    // short-circuit beats the age check.
    let own = vec!["ret/vault-2020-01-01T00:00:00Z.tgz".to_string()];
    assert!(
        retention_keys_to_delete(&now, "vault", "2020-01-01T00:00:00Z", &period, &own)
            .is_empty()
    );
}

#[test]
fn locations_are_judged_one_by_one() {
    let now = at(1_784_718_299);
    let select = |period: RetentionPeriod, keys: &[&str]| {
        let keys: Vec<String> = keys.iter().map(|k| k.to_string()).collect();
        retention_keys_to_delete(&now, "v", "x", &period, &keys)
    };
    let (old, fresh) = ("p/v-2020-01-01T00:00:00Z.tgz", "p/v-2026-07-22T10:00:00Z.tgz");
    let week = RetentionPeriod::Days(7);
    assert_eq!(select(week, &[old, fresh, old]), vec![old, old], "repeats stay, in order");
    assert_eq!(select(week, &[old, old]), vec![old, old]);
    assert!(select(RetentionPeriod::Unlimited, &[old, fresh]).is_empty());
}

#[test]
fn plain_names_are_recognised_alike_in_both_places() {
    for name in ["vault", "a b+c@d=e", "x,(1)!", "$&';"] {
        let file = format!("{name}-2020-01-01T00:00:00Z.tgz");
        assert_eq!(object_stamp(&file, name), archive_stamp(&file, name));
        assert!(archive_stamp(&file, name).is_some());
    }
}

#[test]
fn a_key_that_was_uploaded_is_recognised() {
    let file = "vault-2020-01-01T00:00:00Z.tgz.gpg";
    for prefix in ["", "/", "a", "/a/b/"] {
        let keys = vec![join_prefix(prefix, file)];
        let doomed = retention_keys_to_delete(
            &at(1_784_718_299),
            "vault",
            "x",
            &RetentionPeriod::Hours(1),
            &keys,
        );
        assert_eq!(doomed, keys);
    }
}

#[test]
fn an_archive_is_recognised_whatever_its_name_is_made_of() {
    for name in ["vault", "正常-名字 v1", "a~b#c%d", ".", "..", "x-", "[1]*?"] {
        for ext in ["tgz", "tgz.gpg"] {
            let file = format!("{name}-2020-01-01T00:00:00Z.{ext}");
            for prefix in ["", "a", "wöch/#1"] {
                let listed = location(&join_prefix(prefix, &file));
                let segment = listed.rsplit('/').next().unwrap();
                assert_eq!(object_stamp(segment, name), Some(at(1_577_836_800)), "{listed}");
                assert_eq!(object_stamp(segment, "other"), None);
                assert_eq!(object_stamp(segment, &format!("{name}x")), None);
                let doomed = retention_keys_to_delete(
                    &at(1_784_718_299),
                    name,
                    "x",
                    &RetentionPeriod::Hours(1),
                    &vec![listed.clone()],
                );
                assert_eq!(doomed, vec![listed], "the location is deleted as it was listed");
            }
        }
    }
    for segment in [
        "", ".tgz", "vault.tgz", "2020-01-01T00:00:00Z.tgz", "-2020-01-01T00:00:00Z.tgz",
        "vault-2020-13-01T00:00:00Z.tgz", "vault--2020-01-01T00:00:00Z.tgz",
        "vault-2020-01-01T00:00:00Z.tgz.gpg.gpg", "vault-2020-01-01T00:00:00Z.tar",
    ] {
        assert_eq!(object_stamp(segment, "vault"), None, "{segment:?}");
    }
    // A name that holds a slash has no archives, and takes none of another name.
    let own = "x-2020-01-01T00:00:00Z.tgz";
    assert!(object_stamp(own, "x").is_some());
    for name in ["/x", "x/", "a/x", "//x", "/"] {
        assert_eq!(object_stamp(own, name), None, "{name:?}");
        for key in [own.to_string(), format!("a/{own}")] {
            let keys = vec![key];
            let week = RetentionPeriod::Days(7);
            let now = at(1_784_718_299);
            assert!(retention_keys_to_delete(&now, name, "i", &week, &keys).is_empty());
        }
    }
    // What is listed as the plain name is no location of it.
    assert_eq!(object_stamp("é-2020-01-01T00:00:00Z.tgz", "é"), None);
    assert!(object_stamp("%C3%A9-2020-01-01T00:00:00Z.tgz", "é").is_some());
}

#[test]
fn locations_of_keys() {
    let plain = "weekly/vault-2026-07-22T11:04:59Z.tgz.gpg";
    assert_eq!(location(plain), plain);
    assert_eq!(location("a//b"), "a/b");
    assert_eq!(location("a/../b"), "a/%2E%2E/b");
    assert_eq!(location("a%b"), "a%25b");
    assert_eq!(location("é"), "%C3%A9");
    assert_eq!(location("."), "%2E");
    assert_eq!(location("/..//x/"), "%2E%2E/x");
    assert_eq!(location(".-a"), ".-a");
    // Every byte of ASCII, each as a name of its own between two letters.
    let kept = " !$&'()+,-.0123456789:;=@ABCDEFGHIJKLMNOPQRSTUVWXYZ_abcdefghijklmnopqrstuvwxyz";
    for byte in (0u8..128).filter(|b| *b != b'/') {
        let c = byte as char;
        let expected =
            if kept.contains(c) { format!("a{c}b") } else { format!("a%{byte:02X}b") };
        assert_eq!(location(&format!("a{c}b")), expected);
    }
    assert_eq!(list_prefix("/"), None);
    assert_eq!(list_prefix(""), None);
    assert_eq!(list_prefix("/week ly/"), Some("week ly".to_string()));
    assert_eq!(list_prefix("a//b/"), Some("a/b".to_string()));
}

#[test]
fn the_client_is_told_everything() {
    let settings = client(&target("http://127.0.0.1:1", S3Addressing::PathStyle));
    assert_eq!(settings.endpoint, "http://127.0.0.1:1");
    assert_eq!(settings.region, "us-east-1");
    assert_eq!(settings.access_key, "ak");
    assert_eq!(settings.secret_key, "sk");
    assert_eq!(settings.bucket, "bkt");
    assert!(settings.allow_http);
    assert!(!settings.virtual_hosted);
    let settings = client(&target("https://s3.example.com", S3Addressing::VirtualHosted));
    assert!(!settings.allow_http);
    assert!(settings.virtual_hosted);
    let failure =
        client_failure(&target("nonsense", S3Addressing::PathStyle), Failure::say("bad url"));
    assert_eq!(failure.full(), "build S3 client for endpoint 'nonsense': bad url");
}

#[test]
fn only_an_object_that_does_not_exist_is_free() {
    assert!(ensure_object_free(Head::NotFound, "k").is_ok());
    for (head, message) in [
        (Head::Found(1234), "s3 object k already exists (1234 bytes)"),
        (Head::Failed(Failure::say("denied")), "check s3 object k: denied"),
        (Head::NotAsked(Failure::say("no runtime")), "head object k: no runtime"),
    ] {
        assert_eq!(ensure_object_free(head, "k").unwrap_err().full(), message);
    }
}

fn begin() -> Upload {
    upload(FilePath::from_text("/w/a.tgz"), "k/a.tgz".to_string())
}

fn reading() -> Upload {
    begin()
        .resume(UploadReply::Head(Head::NotFound))
        .resume(UploadReply::Did(Ok(())))
        .resume(UploadReply::Did(Ok(())))
}

#[test]
fn an_upload_sends_every_block() {
    let mut upload = reading();
    let mut sent = Vec::new();
    let mut blocks = vec![8, 8, 3, 0].into_iter();
    loop {
        let reply = match &upload.stage {
            UploadStage::Read => UploadReply::Read(Ok(blocks.next().unwrap())),
            UploadStage::Write(count) => {
                sent.push(*count);
                UploadReply::Did(Ok(()))
            }
            UploadStage::Finish => UploadReply::Did(Ok(())),
            UploadStage::Done(result) => {
                assert!(result.is_ok());
                break;
            }
            other => panic!("{other:?}"),
        };
        upload = upload.resume(reply);
    }
    assert_eq!(sent, vec![8, 8, 3]);
}

fn failure_of(upload: Upload) -> String {
    match upload.stage {
        UploadStage::Done(Err(failure)) => failure.full(),
        other => panic!("{other:?}"),
    }
}

#[test]
fn each_step_of_an_upload_can_fail() {
    let io = || Failure::say("io");
    let failed = || UploadReply::Did(Err(io()));
    let initiated = || begin().resume(UploadReply::Head(Head::NotFound));
    assert_eq!(
        failure_of(begin().resume(UploadReply::Head(Head::Found(7)))),
        "s3 object k/a.tgz already exists (7 bytes)"
    );
    assert_eq!(failure_of(initiated().resume(UploadReply::NotAsked(io()))), "io");
    assert_eq!(failure_of(initiated().resume(failed())), "initiate multipart upload: io");
    assert_eq!(
        failure_of(initiated().resume(UploadReply::Did(Ok(()))).resume(failed())),
        "open artifact /w/a.tgz: io"
    );
    assert_eq!(
        failure_of(reading().resume(UploadReply::Read(Ok(0))).resume(failed())),
        "complete multipart upload: io"
    );
}

#[test]
fn an_upload_that_fails_while_sending_is_aborted() {
    let io = || Failure::say("io");
    let unread = reading().resume(UploadReply::Read(Err(io())));
    assert!(matches!(unread.stage, UploadStage::Abort(_)));
    assert_eq!(failure_of(unread.resume(UploadReply::Aborted)), "read artifact /w/a.tgz: io");
    let unsent = reading().resume(UploadReply::Read(Ok(5))).resume(UploadReply::Did(Err(io())));
    assert!(matches!(unsent.stage, UploadStage::Abort(_)));
    assert_eq!(failure_of(unsent.resume(UploadReply::Aborted)), "multipart upload backpressure: io");
}

fn prune(prefix: &str) -> Prune {
    cleanup_retention(
        "bkt".to_string(),
        prefix.to_string(),
        "vault".to_string(),
        "2026-07-22T11:04:59Z".to_string(),
        at(1_784_718_299),
        RetentionPeriod::Days(7),
    )
}

#[test]
fn a_bucket_is_cleaned_up() {
    let keys = vec![
        "r/vault-2020-01-01T00:00:00Z.tgz".to_string(),
        "r/vault-2026-07-22T11:04:59Z.tgz".to_string(),
        "r/vault-2021-01-01T00:00:00Z.tgz.gpg".to_string(),
    ];
    let mut prune = prune("r").resume(PruneReply::Listed(Ok(keys)));
    let mut deleted = Vec::new();
    let mut log = Vec::new();
    loop {
        let reply = match &prune.stage {
            PruneStage::Delete(_) => {
                deleted.push(prune.doomed_key().unwrap());
                if deleted.len() == 1 {
                    PruneReply::Deleted(Err(Failure::say("denied")))
                } else {
                    PruneReply::Deleted(Ok(()))
                }
            }
            PruneStage::Log(line, _) => {
                log.push(line.clone());
                PruneReply::Logged
            }
            PruneStage::Done => break,
            PruneStage::List => panic!("listed already"),
        };
        prune = prune.resume(reply);
    }
    assert_eq!(
        deleted,
        vec!["r/vault-2020-01-01T00:00:00Z.tgz", "r/vault-2021-01-01T00:00:00Z.tgz.gpg"]
    );
    assert_eq!(
        log,
        vec![
            "retention: warning: cannot delete s3://bkt/r/vault-2020-01-01T00:00:00Z.tgz (denied); keeping it",
            "retention: removed s3://bkt/r/vault-2021-01-01T00:00:00Z.tgz.gpg",
        ]
    );
    assert!(prune.doomed_key().is_none());
}

#[test]
fn a_bucket_that_cannot_be_listed_is_left_unchanged() {
    for (prefix, scope) in [("/", "s3://bkt"), ("/a//b/", "s3://bkt/a/b")] {
        let prune = prune(prefix).resume(PruneReply::Listed(Err(Failure::say("denied"))));
        match &prune.stage {
            PruneStage::Log(line, _) => assert_eq!(
                *line,
                format!("retention: cannot list {scope} for cleanup (denied); leaving it unchanged")
            ),
            other => panic!("{other:?}"),
        }
        assert!(matches!(prune.resume(PruneReply::Logged).stage, PruneStage::Done));
    }
}

#[test]
fn deliveries_are_reported_in_one_line() {
    let local = Delivered::Local(FilePath::from_text("/out/a.tgz"));
    assert_eq!(local.line(), "/out/a.tgz");
    assert_eq!(local.clone().line(), local.line());
    let object = Delivered::S3 { bucket: "bkt".to_string(), key: "w/a.tgz".to_string() };
    assert_eq!(object.line(), "s3://bkt/w/a.tgz");
    assert_eq!(object.clone().line(), object.line());
}
