//! Delivery to local targets, and their cleanup.

use std::collections::{BTreeMap, BTreeSet};

use vaultwarden_backup::deliver::{
    cleanup_retention, deliver, deliver_one, ensure_targets_free, Cleanup, CleanupReply,
    CleanupStage, Deliver, DeliverOne, DeliverReply, DeliverStage, EntryKind, OneReply, OneStage,
    TargetEntry,
};
use vaultwarden_backup::failure::Failure;
use vaultwarden_backup::path::FilePath;
use vaultwarden_backup::{Moment, RetentionPeriod};

fn path(text: &str) -> FilePath {
    FilePath::from_text(text)
}

fn text(path: &FilePath) -> String {
    String::from_utf8(path.bytes.clone()).unwrap()
}

#[test]
fn ensure_targets_free_detects_existing_file() {
    let targets = vec![path("/a"), path("/b")];
    assert!(ensure_targets_free(&targets, &vec![false, false], "x.tgz").is_ok());
    let err = ensure_targets_free(&targets, &vec![false, true], "x.tgz").unwrap_err();
    assert!(err.headline().contains("x.tgz"), "{err:?}");
    assert_eq!(
        ensure_targets_free(&targets, &vec![true, true], "x.tgz").unwrap_err().full(),
        "target(s) already contain x.tgz: /a, /b; remove them or run later \
         (a same-second run would overwrite a previous backup)"
    );
    assert!(ensure_targets_free(&vec![], &vec![], "x.tgz").is_ok());
}

/// Drives a delivery over directories in memory; `broken` ones cannot be written.
struct Shelf {
    files: BTreeMap<String, Vec<u8>>,
    broken: BTreeSet<String>,
    warnings: Vec<String>,
}

impl Shelf {
    fn new() -> Shelf {
        let mut files = BTreeMap::new();
        files.insert("/w/art.tgz".to_string(), b"payload".to_vec());
        Shelf { files, broken: BTreeSet::new(), warnings: Vec::new() }
    }

    fn one(&mut self, one: &DeliverOne) -> OneReply {
        let part = text(&one.part);
        match &one.stage {
            OneStage::Copy => {
                if self.broken.iter().any(|b| part.starts_with(b)) {
                    return OneReply::Did(Err(Failure::say("not a directory")));
                }
                let bytes = self.files[&text(&one.artifact)].clone();
                self.files.insert(part, bytes);
                OneReply::Did(Ok(()))
            }
            OneStage::Sync => OneReply::Did(Ok(())),
            OneStage::Rename => {
                let bytes = self.files.remove(&part).unwrap();
                self.files.insert(text(&one.dest), bytes);
                OneReply::Did(Ok(()))
            }
            OneStage::SyncDir(dir) => {
                assert_eq!(Some(dir.clone()), one.dest.parent());
                OneReply::Did(Err(Failure::say("EINVAL")))
            }
            OneStage::Warn(line) => {
                self.warnings.push(line.clone());
                OneReply::Warned
            }
            OneStage::DropPart(_) => {
                self.files.remove(&part);
                OneReply::Dropped
            }
            OneStage::Done(_) => panic!("over"),
        }
    }

    fn run(&mut self, mut delivery: Deliver) -> Result<Vec<FilePath>, Failure> {
        loop {
            let reply = match &delivery.stage {
                DeliverStage::Check(_) | DeliverStage::Probe(_) => {
                    let asked = delivery.probed().unwrap();
                    DeliverReply::Found(self.files.contains_key(&text(&asked)))
                }
                DeliverStage::One(_, one) => DeliverReply::One(self.one(one)),
                DeliverStage::Done(_) => break,
            };
            delivery = delivery.resume(reply);
        }
        assert!(delivery.probed().is_none());
        match delivery.stage {
            DeliverStage::Done(result) => result,
            _ => unreachable!(),
        }
    }
}

#[test]
fn partial_delivery_failure_names_targets_and_keeps_successes() {
    let mut shelf = Shelf::new();
    shelf.broken.insert("/b/".to_string());
    let err = shelf
        .run(deliver(path("/w/art.tgz"), vec![path("/a"), path("/b")], 7))
        .unwrap_err();
    assert!(err.headline().contains("1 of 2"), "{err:?}");
    assert!(
        err.headline().contains("/b"),
        "the failing target must be named: {err:?}"
    );
    assert_eq!(
        err.full(),
        "delivery failed for 1 of 2 target(s): /b: copy artifact to /b/art.tgz.part.7: not a directory"
    );
    // The independent good target is still delivered.
    assert_eq!(shelf.files["/a/art.tgz"], b"payload");
    assert_eq!(shelf.files.len(), 2, "no part is left");
}

#[test]
fn every_target_is_served_in_order() {
    let mut shelf = Shelf::new();
    let list = shelf
        .run(deliver(path("/w/art.tgz"), vec![path("/b"), path("/a")], 7))
        .unwrap();
    assert_eq!(list, vec![path("/b/art.tgz"), path("/a/art.tgz")]);
    assert_eq!(
        shelf.warnings[0],
        "warning: could not fsync target directory /b (EINVAL); the archive itself was already fsynced"
    );
    assert!(shelf.run(deliver(path("/w/art.tgz"), vec![], 7)).unwrap().is_empty());
}

#[test]
fn nothing_is_overwritten() {
    let mut shelf = Shelf::new();
    shelf.files.insert("/b/art.tgz".to_string(), b"old".to_vec());
    let err = shelf
        .run(deliver(path("/w/art.tgz"), vec![path("/a"), path("/b")], 7))
        .unwrap_err();
    assert!(err.headline().starts_with("target(s) already contain art.tgz: /b;"), "{err:?}");
    assert!(!shelf.files.contains_key("/a/art.tgz"), "refused before any copy");
    assert_eq!(shelf.files["/b/art.tgz"], b"old");
}

#[test]
fn a_file_that_appears_during_the_delivery_is_not_overwritten() {
    let d = deliver(path("/w/art.tgz"), vec![path("/a")], 7);
    let d = d.resume(DeliverReply::Found(false));
    assert!(matches!(d.stage, DeliverStage::Probe(0)));
    match d.resume(DeliverReply::Found(true)).stage {
        DeliverStage::Done(Err(failure)) => assert_eq!(
            failure.full(),
            "delivery failed for 1 of 1 target(s): /a: art.tgz already exists"
        ),
        other => panic!("{other:?}"),
    }
}

#[test]
fn an_artifact_without_a_name_is_not_delivered() {
    match deliver(path("/"), vec![path("/a")], 7).stage {
        DeliverStage::Done(Err(failure)) => assert_eq!(failure.full(), "artifact has no file name"),
        other => panic!("{other:?}"),
    }
}

#[test]
fn each_step_of_a_delivery_can_fail() {
    assert_eq!(deliver_one(path("/w/a"), path("/t/p"), path("/t/a")).artifact, path("/w/a"));
    let begin = || deliver_one(path("/w/a"), path("/t/a.part.1"), path("/t/a"));
    let ok = || OneReply::Did(Ok(()));
    let failed = || OneReply::Did(Err(Failure::say("io")));
    for (one, message) in [
        (begin().resume(failed()), "copy artifact to /t/a.part.1: io"),
        (begin().resume(ok()).resume(failed()), "fsync /t/a.part.1: io"),
        (begin().resume(ok()).resume(ok()).resume(failed()), "rename /t/a.part.1 -> /t/a: io"),
    ] {
        assert!(matches!(one.stage, OneStage::DropPart(_)));
        match one.resume(OneReply::Dropped).stage {
            OneStage::Done(Err(failure)) => assert_eq!(failure.full(), message),
            other => panic!("{other:?}"),
        }
    }
    let one = begin().resume(ok()).resume(ok()).resume(ok());
    assert!(matches!(one.stage, OneStage::SyncDir(_)));
    assert!(matches!(one.resume(ok()).stage, OneStage::Done(Ok(()))));
}

fn cleanup(period: RetentionPeriod) -> Cleanup {
    cleanup_retention(
        path("/out"),
        "vault".to_string(),
        "2019-01-01T00:00:00Z".to_string(),
        Moment::from_unix_timestamp(1_784_718_299).unwrap(),
        period,
    )
}

fn named(name: &str, kind: EntryKind) -> TargetEntry {
    TargetEntry::Named(name.as_bytes().to_vec(), kind)
}

fn entries() -> Vec<TargetEntry> {
    vec![
        named("notes.txt", EntryKind::Regular),
        named("vault-2020-01-01T00:00:00Z.tgz", EntryKind::Regular),
        TargetEntry::Broken,
        named("vault-2020-01-02T00:00:00Z.tgz", EntryKind::Other),
        named("vault-2020-01-03T00:00:00Z.tgz", EntryKind::Unknown),
        named("other-2020-01-01T00:00:00Z.tgz", EntryKind::Regular),
        named("vault-2026-07-22T10:00:00Z.tgz", EntryKind::Regular),
        named("vault-2019-01-01T00:00:00Z.tgz", EntryKind::Regular),
        named("vault-2020-01-04T00:00:00Z.tgz.gpg", EntryKind::Regular),
    ]
}

fn clean(mut cleanup: Cleanup) -> (Vec<String>, Vec<String>) {
    let mut removed = Vec::new();
    let mut log = Vec::new();
    loop {
        let reply = match &cleanup.stage {
            CleanupStage::List => CleanupReply::Listed(Ok(entries())),
            CleanupStage::Remove(_) => {
                removed.push(text(&cleanup.doomed().unwrap()));
                if removed.len() == 1 {
                    CleanupReply::Removed(Err(Failure::say("denied")))
                } else {
                    CleanupReply::Removed(Ok(()))
                }
            }
            CleanupStage::Log(line, _) => {
                log.push(line.clone());
                CleanupReply::Logged
            }
            CleanupStage::Done => return (removed, log),
        };
        cleanup = cleanup.resume(reply);
    }
}

#[test]
fn a_target_is_cleaned_up() {
    let (removed, log) = clean(cleanup(RetentionPeriod::Days(7)));
    assert_eq!(
        removed,
        vec!["/out/vault-2020-01-01T00:00:00Z.tgz", "/out/vault-2020-01-04T00:00:00Z.tgz.gpg"]
    );
    assert_eq!(
        log,
        vec![
            "retention: warning: cannot remove /out/vault-2020-01-01T00:00:00Z.tgz (denied); keeping it",
            "retention: cannot read an entry in /out; skipping it",
            "retention: removed /out/vault-2020-01-04T00:00:00Z.tgz.gpg",
        ]
    );
}

#[test]
fn an_unlimited_period_removes_nothing() {
    let (removed, log) = clean(cleanup(RetentionPeriod::Unlimited));
    assert!(removed.is_empty());
    assert_eq!(log.len(), 1);
}

#[test]
fn a_target_that_cannot_be_read_is_left_unchanged() {
    let cleanup = cleanup(RetentionPeriod::Days(7))
        .resume(CleanupReply::Listed(Err(Failure::say("denied"))));
    match &cleanup.stage {
        CleanupStage::Log(line, _) => assert_eq!(
            line,
            "retention: cannot read target /out for cleanup (denied); leaving it unchanged"
        ),
        other => panic!("{other:?}"),
    }
    assert!(matches!(cleanup.resume(CleanupReply::Logged).stage, CleanupStage::Done));
}
