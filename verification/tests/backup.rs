//! Whole runs, over a machine in memory.

use std::collections::{BTreeMap, BTreeSet};
use std::io::Read;

use vaultwarden_backup::archive::{Create, CreateReply, CreateStage, GZIP_LEVEL};
use vaultwarden_backup::crypto::{Encrypt, EncryptReply, EncryptStage, Listing};
use vaultwarden_backup::db::{Backup, BackupReply, BackupStage, BackupStep};
use vaultwarden_backup::deliver::{
    Cleanup, CleanupReply, CleanupStage, Deliver, DeliverReply, DeliverStage, EntryKind, OneReply,
    OneStage, TargetEntry,
};
use vaultwarden_backup::failure::Failure;
use vaultwarden_backup::files::{
    DirEntries, FileKind, FileMeta, FileTime, Walk, WalkReply, WalkStage,
};
use vaultwarden_backup::foresee::Resolution;
use vaultwarden_backup::header::EntryHeader;
use vaultwarden_backup::location::location;
use vaultwarden_backup::path::FilePath;
use vaultwarden_backup::run::{Run, RunReply, RunStage};
use vaultwarden_backup::s3::{
    client, Head, Prune, PruneReply, PruneStage, Upload, UploadReply, UploadStage,
};
use vaultwarden_backup::{
    DatabaseType, Delivered, EncryptionType, Moment, RetentionPeriod, S3Addressing, S3Target,
    Target,
};

const NOW: i64 = 1_784_718_299;
const STAMP: &str = "2026-07-22T11:04:59Z";
const FPR: &str = "a1b2c3d4e5f60718293a4b5c6d7e8f9012345678";

type Tar = tar::Builder<flate2::write::GzEncoder<Vec<u8>>>;

/// Directories, files, a keyring and an object store, all in memory.
struct World {
    dirs: BTreeSet<String>,
    files: BTreeMap<String, Vec<u8>>,
    /// Paths that resolve to others.
    links: BTreeMap<String, String>,
    objects: BTreeMap<String, Vec<u8>>,
    keyring: String,
    gpg: bool,
    gpg_succeeds: bool,
    /// Copies below these fail.
    broken: Vec<String>,
    store_broken: bool,
    log: Vec<String>,
    tar: Option<Tar>,
    gzip: Option<flate2::write::GzEncoder<Vec<u8>>>,
    packed: Vec<u8>,
    sent: Vec<u8>,
    offset: usize,
    clock: i64,
    /// How far the clock goes on each time it is read.
    tick: i64,
    /// Whether a directory was ever asked to be created.
    created: bool,
    /// Whether a scratch directory was ever made.
    worked: bool,
    /// What the scratch directory held when it was removed.
    left_over: Vec<String>,
}

fn path(text: &str) -> FilePath {
    FilePath::from_text(text)
}

fn text(path: &FilePath) -> String {
    String::from_utf8(path.bytes.clone()).unwrap()
}

fn io(message: &str) -> Failure {
    Failure::say(message)
}

impl World {
    /// A data directory as vaultwarden leaves it.
    fn sample() -> World {
        let mut world = World {
            dirs: BTreeSet::new(),
            files: BTreeMap::new(),
            links: BTreeMap::new(),
            objects: BTreeMap::new(),
            keyring: format!("fpr:::::::::{}:\n", FPR.to_uppercase()),
            gpg: true,
            gpg_succeeds: true,
            broken: Vec::new(),
            store_broken: false,
            log: Vec::new(),
            tar: None,
            gzip: None,
            packed: Vec::new(),
            sent: Vec::new(),
            offset: 0,
            clock: NOW,
            tick: 0,
            created: false,
            worked: false,
            left_over: Vec::new(),
        };
        for dir in [
            "/", "/root", "/root/data", "/root/data/attachments", "/root/data/attachments/u1",
            "/root/data/sends", "/root/data/sends/s1", "/root/data/icon_cache",
        ] {
            world.dirs.insert(dir.to_string());
        }
        for (name, bytes) in [
            ("db.sqlite3", &b"rows"[..]),
            ("db.sqlite3-wal", b"wal"),
            ("attachments/u1/file.txt", b"attachment-content\n"),
            ("sends/s1/send.txt", b"send-bytes-\x00\x01\x02"),
            ("config.json", b"{\"AdminToken\":\"secret\"}"),
            ("rsa_key.pem", b"PRIVATE KEY DATA"),
            ("rsa_key.pub.der", &[0xDE, 0xAD, 0xBE, 0xEF]),
            ("icon_cache/a.png", &[0x89, b'P', b'N', b'G']),
        ] {
            world.files.insert(format!("/root/data/{name}"), bytes.to_vec());
        }
        world
    }

    fn holds(&self, path: &str) -> bool {
        self.dirs.contains(path) || self.files.contains_key(path)
    }

    fn names(&self, dir: &str) -> Vec<String> {
        let prefix = format!("{dir}/");
        self.dirs
            .iter()
            .chain(self.files.keys())
            .filter_map(|k| k.strip_prefix(&prefix))
            .filter(|rest| !rest.contains('/'))
            .map(|rest| rest.to_string())
            .collect()
    }

    fn resolve(&self, path: &FilePath) -> Result<FilePath, Failure> {
        let spelled = text(path).replace("/./", "/");
        let real = self.links.get(&spelled).unwrap_or(&spelled).clone();
        if self.holds(&real) {
            Ok(FilePath::from_text(&real))
        } else {
            Err(io("No such file or directory"))
        }
    }

    fn meta(&self, path: &FilePath) -> Result<FileMeta, Failure> {
        let path = text(path);
        let (kind, len) = match self.files.get(&path) {
            Some(bytes) => (FileKind::Regular, bytes.len() as u64),
            None if self.dirs.contains(&path) => (FileKind::Directory, 0),
            None => return Err(io("No such file or directory")),
        };
        Ok(FileMeta { kind, len, mode: 0o100644, modified: Ok(FileTime { seconds: 7, nanos: 0 }) })
    }

    fn append(&mut self, header: &EntryHeader, name: &str, from: &str) {
        let bytes = self.files[from].clone();
        let mut block = tar::Header::from_byte_slice(&header.block()).clone();
        self.tar.as_mut().unwrap().append_data(&mut block, name, &bytes[..]).unwrap();
    }

    fn snapshot(&mut self, backup: &Backup) -> BackupReply {
        match &backup.stage {
            BackupStage::Waiting(BackupStep::Probe) => {
                BackupReply::Found(self.files.contains_key(&text(&backup.database())))
            }
            BackupStage::Waiting(BackupStep::ProbeStale) => BackupReply::Found(false),
            BackupStage::Waiting(BackupStep::Copy) => {
                let bytes = self.files[&text(&backup.database())].clone();
                self.files.insert(text(&backup.snapshot), bytes);
                BackupReply::Did(Ok(()))
            }
            _ => BackupReply::Did(Ok(())),
        }
    }

    fn walk(&mut self, walk: &Walk) -> WalkReply {
        match &walk.stage {
            WalkStage::List(place) => WalkReply::Listed(DirEntries::Names(
                self.names(&text(&place.path)).into_iter().map(String::into_bytes).collect(),
            )),
            WalkStage::Probe(place) => {
                WalkReply::Empty(Ok(self.names(&text(&place.path)).is_empty()))
            }
            WalkStage::Warn(line) => {
                self.log.push(line.clone());
                WalkReply::Warned
            }
            WalkStage::Open(_, _) => WalkReply::Opened(Ok(())),
            WalkStage::Append(place, _, header) => {
                self.append(header, &place.arc_name, &text(&place.path));
                WalkReply::Appended(Ok(()))
            }
            WalkStage::Stat(place)
            | WalkStage::StatOpened(place, _)
            | WalkStage::StatAgain(place, _) => WalkReply::Meta(self.meta(&place.path)),
            WalkStage::Done(_) => panic!("over"),
        }
    }

    fn package(&mut self, create: &Create) -> CreateReply {
        match &create.stage {
            CreateStage::StatSnapshot => CreateReply::Meta(self.meta(&create.snapshot)),
            CreateStage::CreatePart(_) => {
                self.files.insert(text(&create.part()), Vec::new());
                self.tar = Some(tar::Builder::new(flate2::write::GzEncoder::new(
                    Vec::new(),
                    flate2::Compression::new(GZIP_LEVEL),
                )));
                CreateReply::Did(Ok(()))
            }
            CreateStage::OpenSnapshot(_) => CreateReply::Did(Ok(())),
            CreateStage::AppendSnapshot(header) => {
                self.append(header, "db.sqlite3", &text(&create.snapshot));
                CreateReply::Did(Ok(()))
            }
            CreateStage::Files(walk) => CreateReply::Files(self.walk(walk)),
            CreateStage::FinishTar => {
                self.gzip = Some(self.tar.take().unwrap().into_inner().unwrap());
                CreateReply::Did(Ok(()))
            }
            CreateStage::FinishGzip => {
                self.packed = self.gzip.take().unwrap().finish().unwrap();
                self.files.insert(text(&create.part()), self.packed.clone());
                CreateReply::Did(Ok(()))
            }
            CreateStage::Rename => {
                let bytes = self.files.remove(&text(&create.part())).unwrap();
                self.files.insert(text(&create.complete()), bytes);
                CreateReply::Did(Ok(()))
            }
            CreateStage::RemovePart(_) => {
                self.files.remove(&text(&create.part()));
                CreateReply::Removed
            }
            CreateStage::Done(_) => panic!("over"),
        }
    }

    fn encrypt(&mut self, encrypt: &Encrypt) -> EncryptReply {
        match &encrypt.stage {
            EncryptStage::Gpg => {
                if !self.gpg_succeeds {
                    return EncryptReply::Exited { success: false, status: "exit status: 2".into() };
                }
                let args = encrypt.gpg_args();
                let plain = String::from_utf8(args[args.len() - 1].clone()).unwrap();
                let part = String::from_utf8(args[args.len() - 2].clone()).unwrap();
                let mut bytes = b"gpg:".to_vec();
                bytes.extend_from_slice(&self.files[&plain]);
                self.files.insert(part, bytes);
                EncryptReply::Exited { success: true, status: "exit status: 0".into() }
            }
            EncryptStage::Rename => {
                let bytes = self.files.remove(&text(&encrypt.part)).unwrap();
                self.files.insert(text(&encrypt.complete), bytes);
                EncryptReply::Did(Ok(()))
            }
            EncryptStage::RemovePlain => {
                self.files.remove(&text(&encrypt.plain)).unwrap();
                EncryptReply::Did(Ok(()))
            }
            EncryptStage::DropPart(_) => {
                self.files.remove(&text(&encrypt.part));
                EncryptReply::Dropped
            }
            EncryptStage::DropPlain(_) => {
                self.files.remove(&text(&encrypt.plain));
                EncryptReply::Dropped
            }
            EncryptStage::Done(_) => panic!("over"),
        }
    }

    fn deliver(&mut self, deliver: &Deliver) -> DeliverReply {
        match &deliver.stage {
            DeliverStage::Check(_) | DeliverStage::Probe(_) => {
                DeliverReply::Found(self.holds(&text(&deliver.probed().unwrap())))
            }
            DeliverStage::One(_, one) => DeliverReply::One(match &one.stage {
                OneStage::Copy => {
                    let part = text(&one.part);
                    if self.broken.iter().any(|b| part.starts_with(b)) {
                        OneReply::Did(Err(io("disk full")))
                    } else {
                        let bytes = self.files[&text(&one.artifact)].clone();
                        self.files.insert(part, bytes);
                        OneReply::Did(Ok(()))
                    }
                }
                OneStage::Rename => {
                    let bytes = self.files.remove(&text(&one.part)).unwrap();
                    self.files.insert(text(&one.dest), bytes);
                    OneReply::Did(Ok(()))
                }
                OneStage::Sync | OneStage::SyncDir(_) => OneReply::Did(Ok(())),
                OneStage::Warn(_) => OneReply::Warned,
                OneStage::DropPart(_) => {
                    self.files.remove(&text(&one.part));
                    OneReply::Dropped
                }
                OneStage::Done(_) => panic!("over"),
            }),
            DeliverStage::Done(_) => panic!("over"),
        }
    }

    fn head(&self, key: &str) -> Head {
        match self.objects.get(&location(key)) {
            Some(bytes) => Head::Found(bytes.len() as u64),
            None => Head::NotFound,
        }
    }

    fn upload(&mut self, upload: &Upload) -> UploadReply {
        match &upload.stage {
            UploadStage::Head => UploadReply::Head(self.head(&upload.key)),
            UploadStage::Initiate => {
                self.sent.clear();
                self.offset = 0;
                UploadReply::Did(if self.store_broken { Err(io("unreachable")) } else { Ok(()) })
            }
            UploadStage::Open => UploadReply::Did(Ok(())),
            UploadStage::Read => {
                let left = self.files[&text(&upload.artifact)].len() - self.offset;
                UploadReply::Read(Ok(left.min(100)))
            }
            UploadStage::Write(count) => {
                let bytes = &self.files[&text(&upload.artifact)];
                self.sent.extend_from_slice(&bytes[self.offset..self.offset + count]);
                self.offset += count;
                UploadReply::Did(Ok(()))
            }
            UploadStage::Finish => {
                self.objects.insert(location(&upload.key), self.sent.clone());
                UploadReply::Did(Ok(()))
            }
            UploadStage::Abort(_) => UploadReply::Aborted,
            UploadStage::Done(_) => panic!("over"),
        }
    }

    fn clean_target(&mut self, cleanup: &Cleanup) -> CleanupReply {
        match &cleanup.stage {
            CleanupStage::List => CleanupReply::Listed(Ok(self
                .names(&text(&cleanup.dir))
                .into_iter()
                .map(|n| TargetEntry::Named(n.into_bytes(), EntryKind::Regular))
                .collect())),
            CleanupStage::Remove(_) => {
                self.files.remove(&text(&cleanup.doomed().unwrap()));
                CleanupReply::Removed(Ok(()))
            }
            CleanupStage::Log(line, _) => {
                self.log.push(line.clone());
                CleanupReply::Logged
            }
            CleanupStage::Done => panic!("over"),
        }
    }

    fn clean_bucket(&mut self, prune: &Prune) -> PruneReply {
        match &prune.stage {
            PruneStage::List => PruneReply::Listed(Ok(self.objects.keys().cloned().collect())),
            PruneStage::Delete(_) => {
                self.objects.remove(&prune.doomed_key().unwrap()).unwrap();
                PruneReply::Deleted(Ok(()))
            }
            PruneStage::Log(line, _) => {
                self.log.push(line.clone());
                PruneReply::Logged
            }
            PruneStage::Done => panic!("over"),
        }
    }

    fn reply(&mut self, run: &Run) -> RunReply {
        match &run.stage {
            RunStage::ListKeys => RunReply::Keys(if self.gpg {
                Listing::Ran {
                    success: true,
                    stdout: self.keyring.clone().into_bytes(),
                    stderr: Vec::new(),
                }
            } else {
                Listing::NotRun(io("No such file or directory"))
            }),
            RunStage::ReadClock | RunStage::ReadClockAgain => {
                let now = Moment::from_unix_timestamp(self.clock).unwrap();
                self.clock += self.tick;
                RunReply::Clock(now)
            }
            RunStage::ResolveSource => RunReply::Resolved(self.resolve(&run.job.request.local_source)),
            RunStage::ProbeSource => RunReply::Is(self.dirs.contains(&text(&run.job.source))),
            RunStage::ForeseeTarget(_, foresight) => {
                RunReply::Foreseen(match self.resolve(&foresight.asked()) {
                    Ok(path) => Resolution::Found(path),
                    Err(_) => Resolution::Missing,
                })
            }
            RunStage::CheckTargets(taken) => {
                RunReply::Is(self.holds(&text(&run.job.foreseen_place(taken.len()).unwrap())))
            }
            RunStage::CreateTarget(i) => {
                self.created = true;
                let dir = text(&run.job.dirs[*i]);
                if !self.links.contains_key(&dir) {
                    self.dirs.insert(dir);
                }
                RunReply::Did(Ok(()))
            }
            RunStage::ResolveTarget(i) => RunReply::Resolved(self.resolve(&run.job.dirs[*i])),
            RunStage::RecheckTargets(taken) => {
                RunReply::Is(self.holds(&text(&run.job.place(taken.len()).unwrap())))
            }
            RunStage::Connect => {
                assert!(!client(run.job.s3.as_ref().unwrap()).virtual_hosted);
                RunReply::Did(Ok(()))
            }
            RunStage::HeadObject => RunReply::Head(self.head(&run.job.object_key().unwrap())),
            RunStage::MakeScratch => {
                self.worked = true;
                self.dirs.insert("/tmp/w".to_string());
                RunReply::Scratch(Ok(path("/tmp/w")))
            }
            RunStage::Snapshot(backup) => RunReply::Snapshot(self.snapshot(backup)),
            RunStage::Package(create) => RunReply::Package(self.package(create)),
            RunStage::DropSnapshot => {
                self.files.remove(&text(&run.job.snapshot())).unwrap();
                RunReply::Dropped
            }
            RunStage::Encrypt(encrypt) => RunReply::Encrypt(self.encrypt(encrypt)),
            RunStage::Deliver(deliver) => RunReply::Deliver(self.deliver(deliver)),
            RunStage::Upload(upload) => RunReply::Upload(self.upload(upload)),
            RunStage::CleanTarget(_, cleanup) => RunReply::CleanTarget(self.clean_target(cleanup)),
            RunStage::CleanBucket(prune) => RunReply::CleanBucket(self.clean_bucket(prune)),
            RunStage::DropScratch(_) => {
                self.left_over = self.names("/tmp/w");
                self.files.retain(|path, _| !path.starts_with("/tmp/w/"));
                self.dirs.remove("/tmp/w");
                RunReply::Dropped
            }
            RunStage::Done(_) => panic!("over"),
        }
    }

    fn drive(&mut self, mut run: Run) -> Result<Vec<String>, Failure> {
        while !matches!(run.stage, RunStage::Done(_)) {
            let reply = self.reply(&run);
            run = run.resume(reply);
        }
        match run.stage {
            RunStage::Done(result) => result.map(|list| list.iter().map(Delivered::line).collect()),
            _ => unreachable!(),
        }
    }

    fn back_up(
        &mut self,
        source: &str,
        targets: Vec<Target>,
        name: &str,
        encryption: EncryptionType,
        recipients: &[&str],
        period: RetentionPeriod,
    ) -> Result<Vec<String>, Failure> {
        self.drive(vaultwarden_backup::run(
            path(source),
            targets,
            name.to_string(),
            DatabaseType::Sqlite,
            encryption,
            recipients.iter().map(|r| r.to_string()).collect(),
            period,
            42,
        ))
    }

    fn plain(&mut self, targets: Vec<Target>, name: &str) -> Result<Vec<String>, Failure> {
        let source = "/root/data";
        self.back_up(
            source,
            targets,
            name,
            EncryptionType::Plaintext,
            &[],
            RetentionPeriod::Unlimited,
        )
    }
}

fn local(dir: &str) -> Target {
    Target::Local { dir: path(dir) }
}

fn s3(prefix: &str) -> Target {
    Target::S3(S3Target {
        endpoint: "http://127.0.0.1:1".into(),
        region: "us-east-1".into(),
        access_key: "ak".into(),
        secret_key: "sk".into(),
        bucket: "bkt".into(),
        prefix: prefix.into(),
        addressing: S3Addressing::PathStyle,
    })
}

/// Entry name -> contents.
fn unpack(tgz: &[u8]) -> BTreeMap<String, Vec<u8>> {
    let mut decoded = Vec::new();
    flate2::read::GzDecoder::new(tgz).read_to_end(&mut decoded).unwrap();
    let mut entries = BTreeMap::new();
    for entry in tar::Archive::new(&decoded[..]).entries().unwrap() {
        let mut entry = entry.unwrap();
        let name = entry.path().unwrap().to_string_lossy().to_string();
        let mut bytes = Vec::new();
        entry.read_to_end(&mut bytes).unwrap();
        entries.insert(name, bytes);
    }
    entries
}

#[test]
fn core_happy_path_snapshot_and_files() {
    let mut world = World::sample();
    let lines = world.plain(vec![local("/root/backups")], "vaultwarden-backup").unwrap();
    let out = format!("/root/backups/vaultwarden-backup-{STAMP}.tgz");
    assert_eq!(lines, vec![out.clone()], "one delivery per target");
    let entries = unpack(&world.files[&out]);
    let names: Vec<&String> = entries.keys().collect();
    assert_eq!(
        names,
        vec![
            "attachments/u1/file.txt",
            "config.json",
            "db.sqlite3",
            "icon_cache/a.png",
            "rsa_key.pem",
            "rsa_key.pub.der",
            "sends/s1/send.txt",
        ]
    );
    assert_eq!(entries["db.sqlite3"], b"rows");
    assert_eq!(entries["config.json"], b"{\"AdminToken\":\"secret\"}");
    assert_eq!(entries["sends/s1/send.txt"], b"send-bytes-\x00\x01\x02");
    assert_eq!(world.names("/root/backups").len(), 1, "no part file is left behind");
}

#[test]
fn core_multiple_local_targets_all_delivered() {
    let mut world = World::sample();
    let lines =
        world.plain(vec![local("/root/backups-a"), local("/root/backups-b")], "multi").unwrap();
    assert_eq!(
        lines,
        vec![
            format!("/root/backups-a/multi-{STAMP}.tgz"),
            format!("/root/backups-b/multi-{STAMP}.tgz"),
        ],
        "one delivery per target, in order"
    );
    // Independent copies of the same bytes.
    assert_eq!(world.files[&lines[0]], world.files[&lines[1]]);
}

fn no_targets() {
    let err = World::sample().plain(vec![], "n").unwrap_err();
    assert!(err.headline().contains("at least one target"), "{err:?}");
}

#[test]
fn core_no_targets_fails() {
    no_targets();
}

#[test]
fn integration_no_targets_fails() {
    no_targets();
}

fn custom_name() {
    let lines = World::sample().plain(vec![local("/root/out")], "my-prefix").unwrap();
    let fname = lines[0].rsplit('/').next().unwrap();
    assert!(fname.starts_with("my-prefix-"), "{fname}");
    assert!(fname.ends_with(".tgz"));
}

#[test]
fn core_custom_name_prefix_is_used() {
    custom_name();
}

#[test]
fn integration_custom_name_prefix_is_used() {
    custom_name();
}

fn name_with_slash() {
    let mut world = World::sample();
    let err = world.plain(vec![local("/root/out")], "bad/name").unwrap_err();
    assert!(
        err.headline().contains("name"),
        "error must mention the name problem: {err:?}"
    );
    assert!(!world.holds("/root/out"), "nothing may be written on preflight failure");
}

#[test]
fn core_name_with_slash_fails_before_any_work() {
    name_with_slash();
}

#[test]
fn integration_name_with_slash_fails_before_any_work() {
    name_with_slash();
}

#[test]
fn core_duplicate_target_delivered_once() {
    let mut world = World::sample();
    world.links.insert("/root/out-link".into(), "/root/out".into());
    let lines = world.plain(vec![local("/root/out"), local("/root/out-link")], "dedup").unwrap();
    assert_eq!(
        lines,
        vec![format!("/root/out/dedup-{STAMP}.tgz")],
        "one delivery per physical directory"
    );
    assert_eq!(world.names("/root/out").len(), 1, "exactly one archive");
}

fn missing_source() {
    let mut world = World::sample();
    let err = world
        .back_up(
            "/root/no-such-dir",
            vec![local("/root/out")],
            "n",
            EncryptionType::Plaintext,
            &[],
            RetentionPeriod::Unlimited,
        )
        .unwrap_err();
    assert!(err.headline().contains("does not exist"));
    assert_eq!(
        err.full(),
        "source directory '/root/no-such-dir' does not exist or is not accessible: \
         No such file or directory"
    );
    assert!(!world.holds("/root/out"));
}

#[test]
fn core_missing_source_fails() {
    missing_source();
}

#[test]
fn integration_missing_source_fails() {
    missing_source();
}

#[test]
fn core_source_is_file_fails() {
    let mut world = World::sample();
    world.files.insert("/root/not-a-dir".into(), b"x".to_vec());
    let err = world
        .back_up(
            "/root/not-a-dir",
            vec![local("/root/out")],
            "n",
            EncryptionType::Plaintext,
            &[],
            RetentionPeriod::Unlimited,
        )
        .unwrap_err();
    assert_eq!(err.full(), "source '/root/not-a-dir' is not a directory");
}

#[test]
fn core_source_without_db_fails() {
    let mut world = World::sample();
    world.files.remove("/root/data/db.sqlite3");
    let err = world.plain(vec![local("/root/out")], "n").unwrap_err();
    assert!(
        err.chain.iter().any(|e| e.contains("no db.sqlite3")),
        "expected a missing-db error in the chain: {err:?}"
    );
    assert_eq!(err.headline(), "online database backup failed");
    assert!(world.names("/root/out").is_empty(), "no archive may exist on failure");
}

fn nested() {
    for (target, word) in [
        ("/root/data/backups", "nested"),
        ("/root", "nested"),
        ("/root/data", "different"),
    ] {
        let mut world = World::sample();
        let err = world.plain(vec![local(target)], "n").unwrap_err();
        assert!(err.headline().contains(word), "{err:?}");
        assert!(err.headline().ends_with(&format!("({target})")), "{err:?}");
        assert!(!world.created, "nothing may be written on preflight failure");
        assert!(!world.holds("/root/data/backups"), "a refused target is not created");
    }
    assert!(World::sample().plain(vec![local("/root/data-too")], "n").is_ok());
}

#[test]
fn a_nested_target_is_refused_however_it_is_spelled() {
    for target in [
        "/root/new/../data/backups/deep",
        "/root/link/backups",
        "/root/./data//backups/",
        "/root/gone/../../root/link/x/..",
    ] {
        let mut world = World::sample();
        world.links.insert("/root/link".into(), "/root/data".into());
        let err = world.plain(vec![local("/root/fine"), local(target)], "n").unwrap_err();
        assert!(
            err.headline().contains("nested") || err.headline().contains("different"),
            "{target}: {err:?}"
        );
        assert!(!world.created, "not even the target before it is created");
    }
}

#[test]
fn core_source_and_target_nested_fails() {
    nested();
}

#[test]
fn integration_source_and_target_nested_fails() {
    nested();
}

#[test]
fn run_refuses_two_s3_targets() {
    let mut world = World::sample();
    let err = world.plain(vec![s3("/"), s3("/")], "x").unwrap_err();
    assert!(err.headline().contains("at most one S3 target"), "{err:?}");
}

#[test]
fn run_aborts_when_artifact_name_already_exists() {
    let mut world = World::sample();
    world.files.insert(format!("/root/out/x-{STAMP}.tgz"), b"occupied".to_vec());
    let err = world.plain(vec![local("/root/out")], "x").unwrap_err();
    assert!(err.headline().starts_with("target(s) already contain"), "{err:?}");
    assert!(!world.worked && !world.created, "refused before any work");
    assert_eq!(world.files[&format!("/root/out/x-{STAMP}.tgz")], b"occupied");
    // A second later the name is free.
    world.clock += 1;
    assert!(world.plain(vec![local("/root/out")], "x").is_ok());
}

fn encrypted(world: &mut World, recipients: &[&str]) -> Result<Vec<String>, Failure> {
    world.back_up(
        "/root/data",
        vec![local("/root/out")],
        "n",
        EncryptionType::Openpgp,
        recipients,
        RetentionPeriod::Unlimited,
    )
}

fn bad_recipient() {
    let mut world = World::sample();
    let err =
        encrypted(&mut world, &["0000000000000000000000000000000000000000"]).unwrap_err();
    assert!(
        err.headline().contains("gpg keyring"),
        "error must point at the keyring: {err:?}"
    );
    assert!(!world.holds("/root/out"), "nothing may be written on preflight failure");
}

#[test]
fn cli_gpg_bad_recipient_fails_before_anything() {
    bad_recipient();
}

#[test]
fn integration_gpg_bad_recipient_fails_before_anything() {
    bad_recipient();
}

#[test]
fn cli_gpg_missing_binary_fails_at_preflight() {
    let mut world = World::sample();
    world.gpg = false;
    let err = encrypted(&mut world, &[FPR]).unwrap_err();
    assert!(err.headline().contains("is GnuPG installed"), "{err:?}");
    assert!(!world.holds("/root/out"));
}

fn openpgp_requires_recipient() {
    let mut world = World::sample();
    let err = encrypted(&mut world, &[]).unwrap_err();
    assert!(
        err.headline().contains("--recipient"),
        "error must point at the missing recipient: {err:?}"
    );
    assert!(!world.holds("/root/out"), "nothing may be written");
}

#[test]
fn cli_encryption_type_openpgp_requires_recipient() {
    openpgp_requires_recipient();
}

#[test]
fn integration_encryption_type_openpgp_requires_recipient() {
    openpgp_requires_recipient();
}

fn none_forbids_recipient() {
    let mut world = World::sample();
    let err = world
        .back_up(
            "/root/data",
            vec![local("/root/out")],
            "n",
            EncryptionType::Plaintext,
            &["0000000000000000000000000000000000000000"],
            RetentionPeriod::Unlimited,
        )
        .unwrap_err();
    assert!(
        err.headline().contains("plaintext"),
        "error must name the plaintext/recipient conflict: {err:?}"
    );
    assert!(!world.holds("/root/out"), "nothing may be written");
}

#[test]
fn cli_encryption_type_none_forbids_recipient() {
    none_forbids_recipient();
}

#[test]
fn integration_encryption_type_none_forbids_recipient() {
    none_forbids_recipient();
}

fn long_forms() {
    let lines = World::sample().plain(vec![local("/root/out")], "n").unwrap();
    assert_eq!(lines, vec![format!("/root/out/n-{STAMP}.tgz")]);
}

#[test]
fn cli_cli_long_forms_work() {
    long_forms();
}

#[test]
fn integration_cli_long_forms_work() {
    long_forms();
}

#[test]
fn cli_gpg_recipient_produces_gpg_and_no_plaintext() {
    let mut world = World::sample();
    let lines = encrypted(&mut world, &[FPR]).unwrap();
    assert_eq!(lines, vec![format!("/root/out/n-{STAMP}.tgz.gpg")]);
    assert!(world.files[&lines[0]].starts_with(b"gpg:"));
    assert_eq!(world.names("/root/out"), vec![format!("n-{STAMP}.tgz.gpg")]);
    assert_eq!(world.left_over, vec![format!("n-{STAMP}.tgz.gpg")], "the plaintext is gone");
    assert!(unpack(&world.files[&lines[0]][4..]).contains_key("db.sqlite3"));
}

#[test]
fn cli_gpg_uppercase_fingerprint_works() {
    let mut world = World::sample();
    let upper = FPR.to_uppercase();
    assert!(encrypted(&mut world, &[&upper]).is_ok());
}

#[test]
fn a_failed_encryption_delivers_nothing() {
    let mut world = World::sample();
    world.gpg_succeeds = false;
    let err = encrypted(&mut world, &[FPR]).unwrap_err();
    assert_eq!(err.full(), "gpg --encrypt exited with exit status: 2");
    assert!(world.names("/root/out").is_empty());
    assert!(world.left_over.is_empty(), "neither plaintext nor part is left");
}

#[test]
fn cli_s3_local_mixed_success_and_stdout() {
    let mut world = World::sample();
    let lines = world.plain(vec![s3("/"), local("/root/out")], "s3test").unwrap();
    assert_eq!(lines.len(), 2, "one line per target: {lines:?}");
    // Local targets are reported first, then the S3 object.
    assert!(world.holds(&lines[0]), "local line missing: {lines:?}");
    assert!(lines[1].starts_with("s3://"), "s3 line missing: {lines:?}");
    assert!(lines[1].contains("bkt/"), "{}", lines[1]);
    assert_eq!(lines[1], format!("s3://bkt/s3test-{STAMP}.tgz"));
    assert_eq!(world.objects[&format!("s3test-{STAMP}.tgz")], world.files[&lines[0]]);
}

#[test]
fn an_object_that_exists_is_not_overwritten() {
    let mut world = World::sample();
    let key = format!("weekly/v-{STAMP}.tgz");
    world.objects.insert(key.clone(), b"old".to_vec());
    let err = world.plain(vec![local("/root/out"), s3("weekly/")], "v").unwrap_err();
    assert_eq!(err.full(), format!("s3 object {key} already exists (3 bytes)"));
    assert!(!world.worked && !world.created, "refused before any work");
    assert_eq!(world.objects[&key], b"old");
}

#[test]
fn one_failing_target_is_reported_as_it_is() {
    let mut world = World::sample();
    world.broken.push("/root/b/".to_string());
    let err = world.plain(vec![local("/root/a"), local("/root/b"), s3("p")], "v").unwrap_err();
    assert_eq!(
        err.full(),
        format!(
            "delivery failed for 1 of 2 target(s): /root/b: copy artifact to \
             /root/b/v-{STAMP}.tgz.part.42: disk full"
        )
    );
    assert!(world.holds(&format!("/root/a/v-{STAMP}.tgz")), "the others are served");
    assert!(world.objects.contains_key(&format!("p/v-{STAMP}.tgz")));
}

#[test]
fn a_failing_upload_is_reported_with_its_key() {
    let mut world = World::sample();
    world.store_broken = true;
    let err = world.plain(vec![local("/root/a"), s3("p")], "v").unwrap_err();
    assert_eq!(
        err.full(),
        format!("s3://bkt/p/v-{STAMP}.tgz: initiate multipart upload: unreachable")
    );
}

#[test]
fn several_failures_are_summed_up() {
    let mut world = World::sample();
    world.broken.push("/root/a/".to_string());
    world.store_broken = true;
    let err = world.plain(vec![local("/root/a"), s3("p")], "v").unwrap_err();
    assert_eq!(
        err.full(),
        format!(
            "delivery failed for 2 of 2 target(s): delivery failed for 1 of 1 target(s): /root/a: \
             copy artifact to /root/a/v-{STAMP}.tgz.part.42: disk full; \
             s3://bkt/p/v-{STAMP}.tgz: initiate multipart upload: unreachable"
        )
    );
}

/// A world with an old archive in a target and in the bucket.
fn with_old_archives() -> World {
    let mut world = World::sample();
    world.files.insert("/root/out/v-2020-01-01T00:00:00Z.tgz".into(), b"old".to_vec());
    world.files.insert("/root/out/w-2020-01-01T00:00:00Z.tgz".into(), b"other".to_vec());
    world.objects.insert("p/v-2020-01-01T00:00:00Z.tgz".into(), b"old".to_vec());
    world
}

fn with_period(world: &mut World, period: RetentionPeriod) -> Result<Vec<String>, Failure> {
    world.back_up(
        "/root/data",
        vec![local("/root/out"), s3("p")],
        "v",
        EncryptionType::Plaintext,
        &[],
        period,
    )
}

#[test]
fn old_archives_go_after_a_successful_run() {
    let mut world = with_old_archives();
    with_period(&mut world, RetentionPeriod::Days(7)).unwrap();
    assert_eq!(
        world.names("/root/out"),
        vec![format!("v-{STAMP}.tgz"), "w-2020-01-01T00:00:00Z.tgz".to_string()]
    );
    assert_eq!(world.objects.keys().collect::<Vec<_>>(), vec![&format!("p/v-{STAMP}.tgz")]);
    assert_eq!(
        world.log,
        vec![
            "retention: removed /root/out/v-2020-01-01T00:00:00Z.tgz",
            "retention: removed s3://bkt/p/v-2020-01-01T00:00:00Z.tgz",
        ]
    );
}

#[test]
fn old_archives_go_whatever_the_name_and_prefix_are_made_of() {
    let (name, prefix) = ("正常 ~v%1", "wöchentlich/#1");
    let old = location(&format!("{prefix}/{name}-2020-01-01T00:00:00Z.tgz"));
    let other = location(&format!("{prefix}/{name}x-2020-01-01T00:00:00Z.tgz"));
    let mut world = World::sample();
    world.objects.insert(old.clone(), b"old".to_vec());
    world.objects.insert(other.clone(), b"other".to_vec());
    world
        .back_up(
            "/root/data",
            vec![s3(prefix)],
            name,
            EncryptionType::Plaintext,
            &[],
            RetentionPeriod::Days(7),
        )
        .unwrap();
    assert!(!world.objects.contains_key(&old));
    assert!(world.objects.contains_key(&other));
    assert_eq!(world.objects.len(), 2, "the new one and that of the other name");
    assert_eq!(world.log, vec![format!("retention: removed s3://bkt/{old}")]);
}

#[test]
fn a_run_that_outlives_the_period_keeps_its_own_archive() {
    let mut world = with_old_archives();
    world.tick = 7_200;
    let lines = with_period(&mut world, RetentionPeriod::Hours(1)).unwrap();
    // The stamp is that of the start, in the file's name and in the key.
    assert_eq!(
        lines,
        vec![format!("/root/out/v-{STAMP}.tgz"), format!("s3://bkt/p/v-{STAMP}.tgz")]
    );
    assert!(world.holds(&lines[0]));
    assert!(world.objects.contains_key(&format!("p/v-{STAMP}.tgz")));
    assert_eq!(world.log.len(), 2, "only the old ones went");
}

#[test]
fn an_unlimited_run_keeps_everything() {
    let mut world = with_old_archives();
    with_period(&mut world, RetentionPeriod::Unlimited).unwrap();
    assert_eq!(world.names("/root/out").len(), 3);
    assert_eq!(world.objects.len(), 2);
}

#[test]
fn a_failed_run_deletes_nothing() {
    let mut world = with_old_archives();
    world.store_broken = true;
    with_period(&mut world, RetentionPeriod::Days(7)).unwrap_err();
    assert!(world.holds("/root/out/v-2020-01-01T00:00:00Z.tgz"));
    assert!(world.objects.contains_key("p/v-2020-01-01T00:00:00Z.tgz"));
    assert!(world.log.is_empty());
}

#[test]
fn the_scratch_directory_goes_with_the_run() {
    let mut world = World::sample();
    world.plain(vec![local("/root/out")], "v").unwrap();
    assert!(world.worked && !world.holds("/tmp/w"));
    let mut world = World::sample();
    world.broken.push("/root/out/".to_string());
    world.plain(vec![local("/root/out")], "v").unwrap_err();
    assert!(world.worked && !world.holds("/tmp/w"));
    assert_eq!(world.left_over, vec![format!("v-{STAMP}.tgz")]);
}

#[test]
fn each_step_of_a_run_can_fail() {
    let begin = || {
        vaultwarden_backup::run(
            path("/d"),
            vec![local("/t"), s3("p")],
            "v".to_string(),
            DatabaseType::Sqlite,
            EncryptionType::Plaintext,
            Vec::new(),
            RetentionPeriod::Unlimited,
            1,
        )
    };
    let now = || RunReply::Clock(Moment::from_unix_timestamp(NOW).unwrap());
    let resolved = |p: &str| RunReply::Resolved(Ok(path(p)));
    let did = || RunReply::Did(Ok(()));
    let failed = || RunReply::Did(Err(io("io")));
    let failure = |run: Run| match run.stage {
        RunStage::Done(Err(f)) => f.full(),
        other => panic!("{other:?}"),
    };
    let found = |p: &str| RunReply::Foreseen(Resolution::Found(path(p)));
    let foreseeing = || begin().resume(now()).resume(resolved("/d")).resume(RunReply::Is(true));
    let connecting =
        || foreseeing().resume(found("/")).resume(found("/t")).resume(RunReply::Is(false));
    let creating = || connecting().resume(did()).resume(RunReply::Head(Head::NotFound));
    assert_eq!(
        failure(foreseeing().resume(RunReply::Foreseen(Resolution::Failed(io("io"))))),
        "create target directory /t: io"
    );
    assert_eq!(failure(creating().resume(failed())), "create target directory /t: io");
    assert_eq!(
        failure(creating().resume(did()).resume(RunReply::Resolved(Err(io("io"))))),
        "canonicalize target directory /t: io"
    );
    assert_eq!(
        failure(connecting().resume(failed())),
        "build S3 client for endpoint 'http://127.0.0.1:1': io"
    );
    // What exists by then is held against the source, and checked, once more.
    assert_eq!(
        failure(creating().resume(did()).resume(resolved("/d/t"))),
        "source and target must not be nested (/d/t)"
    );
    let rechecking = || creating().resume(did()).resume(resolved("/t"));
    assert!(failure(rechecking().resume(RunReply::Is(true))).starts_with("target(s) already"));
    let scratch = rechecking().resume(RunReply::Is(false));
    assert!(matches!(scratch.stage, RunStage::MakeScratch));
    // A reply to something else changes nothing.
    let scratch = scratch.resume(did());
    assert_eq!(
        failure(scratch.resume(RunReply::Scratch(Err(io("io"))))),
        "create scratch working directory: io"
    );
}
