//! The walk through the data directory, and the archive that it makes.

use std::collections::BTreeMap;
use std::io::Read;

use vaultwarden_backup::archive::{create, Create, CreateReply, CreateStage, GZIP_LEVEL};
use vaultwarden_backup::failure::Failure;
use vaultwarden_backup::files::{
    file_changed, mtime_of, DirEntries, FileKind, FileMeta, FileTime, Walk, WalkReply, WalkStage,
};
use vaultwarden_backup::header::EntryHeader;
use vaultwarden_backup::path::FilePath;

/// A file system in memory.
#[derive(Clone)]
enum Node {
    File(Vec<u8>, u32, i64),
    Dir,
    Link,
    Socket,
}

struct Disk {
    nodes: BTreeMap<String, Node>,
    warnings: Vec<String>,
}

fn path(text: &str) -> FilePath {
    FilePath::from_text(text)
}

fn text(path: &FilePath) -> String {
    String::from_utf8(path.bytes.clone()).unwrap()
}

fn meta(node: &Node) -> FileMeta {
    let (kind, len, mode, seconds) = match node {
        Node::File(bytes, mode, seconds) => (FileKind::Regular, bytes.len() as u64, *mode, *seconds),
        Node::Dir => (FileKind::Directory, 4096, 0o40755, 1),
        Node::Link => (FileKind::Symlink, 1, 0o120777, 1),
        Node::Socket => (FileKind::Special, 0, 0o140755, 1),
    };
    FileMeta { kind, len, mode, modified: Ok(FileTime { seconds, nanos: 5 }) }
}

impl Disk {
    fn new() -> Disk {
        let mut nodes = BTreeMap::new();
        nodes.insert("/d".to_string(), Node::Dir);
        Disk { nodes, warnings: Vec::new() }
    }

    fn put(&mut self, name: &str, node: Node) {
        self.nodes.insert(format!("/d/{name}"), node);
    }

    fn file(&mut self, name: &str, bytes: &[u8]) {
        self.put(name, Node::File(bytes.to_vec(), 0o100644, 1_700_000_000));
    }

    /// The names in a directory, in an order that is not theirs.
    fn names(&self, dir: &FilePath) -> Vec<Vec<u8>> {
        let prefix = format!("{}/", text(dir));
        let mut names: Vec<Vec<u8>> = self
            .nodes
            .keys()
            .filter_map(|k| k.strip_prefix(&prefix))
            .filter(|rest| !rest.contains('/'))
            .map(|rest| rest.as_bytes().to_vec())
            .collect();
        names.reverse();
        names
    }

    fn look(&self, path: &FilePath) -> Result<FileMeta, Failure> {
        match self.nodes.get(&text(path)) {
            Some(node) => Ok(meta(node)),
            None => Err(Failure::say("not found")),
        }
    }

    fn bytes(&self, path: &FilePath) -> Vec<u8> {
        match self.nodes.get(&text(path)) {
            Some(Node::File(bytes, _, _)) => bytes.clone(),
            _ => panic!("not a file"),
        }
    }

    /// What a walk is replied; what it appends goes into `builder`.
    fn reply<W: std::io::Write>(&mut self, walk: &Walk, builder: &mut tar::Builder<W>) -> WalkReply {
        match &walk.stage {
            WalkStage::List(place) => WalkReply::Listed(DirEntries::Names(self.names(&place.path))),
            WalkStage::Stat(place) => WalkReply::Meta(self.look(&place.path)),
            WalkStage::Probe(place) => WalkReply::Empty(Ok(self.names(&place.path).is_empty())),
            WalkStage::Warn(line) => {
                self.warnings.push(line.clone());
                WalkReply::Warned
            }
            WalkStage::Open(_, _) => WalkReply::Opened(Ok(())),
            WalkStage::StatOpened(place, _) => WalkReply::Meta(self.look(&place.path)),
            WalkStage::Append(place, _, header) => {
                append(builder, header, &place.arc_name, &self.bytes(&place.path));
                WalkReply::Appended(Ok(()))
            }
            WalkStage::StatAgain(place, _) => WalkReply::Meta(self.look(&place.path)),
            WalkStage::Done(_) => panic!("the walk is over"),
        }
    }

    fn archive(&mut self) -> Vec<u8> {
        let mut builder = tar::Builder::new(Vec::new());
        let mut walk = vaultwarden_backup::files::write(&path("/d"), "db.sqlite3");
        loop {
            if let WalkStage::Done(result) = &walk.stage {
                assert!(result.is_ok(), "{result:?}");
                return builder.into_inner().unwrap();
            }
            let reply = self.reply(&walk, &mut builder);
            walk = walk.resume(reply);
        }
    }

    fn entry_names(&mut self) -> Vec<String> {
        entries(&self.archive()).into_iter().map(|e| e.0).collect()
    }
}

fn append<W: std::io::Write>(
    builder: &mut tar::Builder<W>,
    header: &EntryHeader,
    name: &str,
    bytes: &[u8],
) {
    let mut block = tar::Header::from_byte_slice(&header.block()).clone();
    builder.append_data(&mut block, name, bytes).unwrap();
}

/// Name, mode, time and content of every entry.
fn entries(bytes: &[u8]) -> Vec<(String, u32, u64, Vec<u8>)> {
    let mut list = Vec::new();
    let mut archive = tar::Archive::new(bytes);
    for entry in archive.entries().unwrap() {
        let mut entry = entry.unwrap();
        let name = entry.path().unwrap().to_string_lossy().to_string();
        let mode = entry.header().mode().unwrap();
        let mtime = entry.header().mtime().unwrap();
        assert_eq!(entry.header().uid().unwrap(), 0);
        assert_eq!(entry.header().gid().unwrap(), 0);
        let mut content = Vec::new();
        entry.read_to_end(&mut content).unwrap();
        list.push((name, mode, mtime, content));
    }
    list
}

#[test]
fn write_streams_regular_files_and_skips_db_and_special() {
    let mut disk = Disk::new();
    disk.file("b.txt", b"bbb");
    disk.file("a.txt", b"aa");
    // The database file and its sidecars must be skipped (not followed).
    disk.file("db.sqlite3", b"rawdb");
    disk.file("db.sqlite3-wal", b"wal");
    disk.file("db.sqlite3-shm", b"shm");
    disk.put("sub", Node::Dir);
    disk.file("sub/c.txt", b"cc");
    // A *nested* file named like the database is not the database: the
    // db-skip applies to the source root only.
    disk.file("sub/db.sqlite3", b"nested");
    // An empty directory should be skipped with a warning, not an error.
    disk.put("empty", Node::Dir);
    // A symlink should be skipped, not followed.
    disk.put("link.txt", Node::Link);
    // A socket file is a special file: skipped, never read.
    disk.put("sock.sock", Node::Socket);

    let names = disk.entry_names();
    assert_eq!(
        names,
        vec!["a.txt", "b.txt", "sub/c.txt", "sub/db.sqlite3"],
        "archive root is the data directory itself (no top-level dir)"
    );
    assert_eq!(
        disk.warnings,
        vec![
            "warning: skipping empty directory /d/empty",
            "warning: skipping symlink /d/link.txt",
            "warning: skipping special file /d/sock.sock",
        ]
    );
}

#[test]
fn a_name_that_begins_like_the_database_is_kept() {
    let mut disk = Disk::new();
    disk.file("db.sqlite3.bak", b"x");
    disk.file("db.sqlite3-old", b"x");
    disk.file("db.sqlite30", b"x");
    assert_eq!(disk.entry_names(), vec!["db.sqlite3.bak", "db.sqlite30"]);
}

#[test]
fn preserves_mode_and_mtime() {
    let mut disk = Disk::new();
    let want_mtime = 1_784_718_299;
    disk.put("f.txt", Node::File(b"x".to_vec(), 0o100600, want_mtime));
    let list = entries(&disk.archive());
    assert_eq!(list.len(), 1);
    assert_eq!(list[0].0, "f.txt");
    assert_eq!(list[0].1, 0o600);
    assert_eq!(list[0].2, want_mtime as u64);
    assert_eq!(list[0].3, b"x");
}

#[test]
fn deep_directory_tree_does_not_overflow() {
    let mut disk = Disk::new();
    let mut deep = String::from("d");
    for _ in 1..1_200 {
        disk.put(&deep, Node::Dir);
        deep.push_str("/d");
    }
    disk.put(&deep, Node::Dir);
    disk.file(&format!("{deep}/leaf.txt"), b"x");

    let names = disk.entry_names();
    assert_eq!(names.len(), 1, "{names:?}");
    assert!(names[0].ends_with("leaf.txt"), "{names:?}");
}

#[test]
fn entry_order_is_depth_first_lexicographic() {
    let mut disk = Disk::new();
    // A subdirectory before and after an in-between file, plus two
    // subdirectories: entry order must be a depth-first, lexicographic
    // walk (a/... before b.txt before z/...).
    disk.put("z", Node::Dir);
    disk.put("a", Node::Dir);
    disk.file("z/m.txt", b"z");
    disk.file("a/m.txt", b"a");
    disk.file("b.txt", b"b");

    let names = disk.entry_names();
    assert_eq!(
        names,
        vec!["a/m.txt", "b.txt", "z/m.txt"],
        "depth-first lexicographic order: {names:?}"
    );
}

#[test]
fn a_directory_is_walked_before_its_longer_sibling() {
    let mut disk = Disk::new();
    disk.put("a", Node::Dir);
    disk.file("a/z", b"1");
    disk.file("a-b", b"2");
    disk.file("a.txt", b"3");
    assert_eq!(disk.entry_names(), vec!["a/z", "a-b", "a.txt"]);
}

fn told(len: u64, modified: Result<FileTime, Failure>) -> FileMeta {
    FileMeta { kind: FileKind::Regular, len, mode: 0, modified }
}

#[test]
fn file_changed_detects_size_and_mtime_drift() {
    let at = |seconds, nanos| Ok(FileTime { seconds, nanos });
    let before = told(5, at(100, 0));
    assert!(
        !file_changed(&before, &told(5, at(100, 0))),
        "the same file must count as unchanged"
    );
    // A size change is always detected.
    assert!(file_changed(&before, &told(6, at(100, 0))));
    // A same-size rewrite is detected via mtime.
    assert!(file_changed(&before, &told(5, at(3700, 0))));
    assert!(file_changed(&before, &told(5, at(100, 1))));
    // A time that cannot be told counts as unchanged, unless it could be told.
    let unknown = || Err(Failure::say("unsupported"));
    assert!(!file_changed(&told(5, unknown()), &told(5, unknown())));
    assert!(file_changed(&before, &told(5, unknown())));
    assert!(file_changed(&told(5, unknown()), &before));
}

#[test]
fn a_time_before_the_epoch_counts_as_the_epoch() {
    let at = |seconds, nanos| told(0, Ok(FileTime { seconds, nanos }));
    assert_eq!(mtime_of(&at(-1, 999_999_999), &path("/f")), Ok(0));
    assert_eq!(mtime_of(&at(0, 0), &path("/f")), Ok(0));
    assert_eq!(mtime_of(&at(7, 999_999_999), &path("/f")), Ok(7));
    let failure = mtime_of(&told(0, Err(Failure::say("unsupported"))), &path("/f")).unwrap_err();
    assert_eq!(failure.full(), "read mtime of /f: unsupported");
}

#[test]
fn a_header_says_what_was_asked() {
    let block = EntryHeader { size: 16, mode: 0o644, mtime: 1_700_000_000 }.block();
    assert_eq!(block.len(), 512);
    assert_eq!(&block[100..108], b"0000644\0");
    assert_eq!(&block[108..116], b"0000000\0");
    assert_eq!(&block[116..124], b"0000000\0");
    assert_eq!(&block[124..136], b"00000000020\0");
    assert_eq!(&block[136..148], b"14524770400\0");
    assert_eq!(&block[257..265], b"ustar\x0000");
    let header = tar::Header::from_byte_slice(&block).clone();
    assert_eq!(header.size().unwrap(), 16);
    assert_eq!(header.mode().unwrap(), 0o644);
    assert_eq!(header.mtime().unwrap(), 1_700_000_000);
    // A size that octal digits do not hold is written in binary.
    let large = EntryHeader { size: 8_589_934_592, mode: 0o7777, mtime: 0 }.block();
    assert_eq!(&large[124..136], &[0x80, 0, 0, 0, 0, 0, 0, 2, 0, 0, 0, 0]);
    assert_eq!(tar::Header::from_byte_slice(&large).size().unwrap(), 8_589_934_592);
}

/// The walk at the point where it has been told of one file.
fn walk_with_file(len: u64) -> Walk {
    let walk = vaultwarden_backup::files::write(&path("/d"), "db.sqlite3");
    let walk = walk.resume(WalkReply::Listed(DirEntries::Names(vec![b"f".to_vec()])));
    assert!(matches!(walk.stage, WalkStage::Stat(_)));
    walk.resume(WalkReply::Meta(Ok(told(len, Ok(FileTime { seconds: 9, nanos: 0 })))))
}

fn failure_of(walk: Walk) -> String {
    match walk.stage {
        WalkStage::Done(Err(failure)) => failure.full(),
        other => panic!("{other:?}"),
    }
}

#[test]
fn a_file_that_changes_fails_the_walk() {
    let same = || Ok(told(5, Ok(FileTime { seconds: 9, nanos: 0 })));
    // Between the look and the opening.
    let walk = walk_with_file(5).resume(WalkReply::Opened(Ok(())));
    let walk = walk.resume(WalkReply::Meta(Ok(told(6, Ok(FileTime { seconds: 9, nanos: 0 })))));
    assert_eq!(
        failure_of(walk),
        "file /d/f changed while being archived (size 5 -> 6); re-run the backup"
    );
    // While it was read.
    let walk = walk_with_file(5).resume(WalkReply::Opened(Ok(()))).resume(WalkReply::Meta(same()));
    assert!(matches!(walk.stage, WalkStage::Append(_, _, _)));
    let walk = walk.resume(WalkReply::Appended(Ok(())));
    let walk = walk.resume(WalkReply::Meta(Ok(told(5, Ok(FileTime { seconds: 10, nanos: 0 })))));
    assert_eq!(failure_of(walk), "file /d/f changed while being archived; re-run the backup");
}

#[test]
fn each_step_of_the_walk_can_fail() {
    let io = || Failure::say("io");
    let begin = || vaultwarden_backup::files::write(&path("/d"), "db.sqlite3");
    let walk = begin().resume(WalkReply::Listed(DirEntries::Unreadable(io())));
    assert_eq!(failure_of(walk), "read directory /d: io");
    let walk = begin().resume(WalkReply::Listed(DirEntries::BrokenEntry(io())));
    assert_eq!(failure_of(walk), "io");
    let walk = begin().resume(WalkReply::Listed(DirEntries::Names(vec![b"f".to_vec()])));
    assert_eq!(failure_of(walk.resume(WalkReply::Meta(Err(io())))), "stat /d/f: io");
    let opened = || walk_with_file(1).resume(WalkReply::Opened(Ok(())));
    let walk = walk_with_file(1).resume(WalkReply::Opened(Err(io())));
    assert_eq!(failure_of(walk), "open file /d/f: io");
    assert_eq!(failure_of(opened().resume(WalkReply::Meta(Err(io())))), "stat /d/f: io");
    let walk = opened().resume(WalkReply::Meta(Ok(told(1, Err(io())))));
    assert_eq!(failure_of(walk), "read mtime of /d/f: io");
    let append = || {
        opened().resume(WalkReply::Meta(Ok(told(1, Ok(FileTime { seconds: 9, nanos: 0 })))))
    };
    assert_eq!(failure_of(append().resume(WalkReply::Appended(Err(io())))), "append f: io");
    let walk = append().resume(WalkReply::Appended(Ok(())));
    assert_eq!(failure_of(walk.resume(WalkReply::Meta(Err(io())))), "stat /d/f: io");
    let dir = FileMeta {
        kind: FileKind::Directory,
        len: 0,
        mode: 0,
        modified: Ok(FileTime { seconds: 0, nanos: 0 }),
    };
    let walk = begin().resume(WalkReply::Listed(DirEntries::Names(vec![b"s".to_vec()])));
    let walk = walk.resume(WalkReply::Meta(Ok(dir)));
    assert!(matches!(walk.stage, WalkStage::Probe(_)));
    assert_eq!(failure_of(walk.resume(WalkReply::Empty(Err(io())))), "io");
}

#[test]
fn a_reply_to_something_else_changes_nothing() {
    let walk = vaultwarden_backup::files::write(&path("/d"), "db.sqlite3");
    let walk = walk.resume(WalkReply::Warned).resume(WalkReply::Appended(Ok(())));
    assert!(matches!(walk.stage, WalkStage::List(_)));
}

fn begin() -> Create {
    create(path("/w"), "vault.tgz".to_string(), path("/w/snap.db"), path("/d"))
}

#[test]
fn snapshot_entry_preserves_snapshot_mtime() {
    let mut disk = Disk::new();
    let want = 1_700_000_000u64;
    disk.nodes.insert(
        "/w/snap.db".to_string(),
        Node::File(b"snapshot payload".to_vec(), 0o100600, want as i64),
    );
    let encoder =
        flate2::write::GzEncoder::new(Vec::new(), flate2::Compression::new(GZIP_LEVEL));
    let mut builder = Some(tar::Builder::new(encoder));
    let mut encoder = None;
    let mut finished = Vec::new();
    let mut create = begin();
    let done = loop {
        let reply = match &create.stage {
            CreateStage::StatSnapshot => CreateReply::Meta(disk.look(&create.snapshot)),
            CreateStage::CreatePart(_) => {
                assert_eq!(create.part(), path("/w/vault.tgz.part"));
                CreateReply::Did(Ok(()))
            }
            CreateStage::OpenSnapshot(_) => CreateReply::Did(Ok(())),
            CreateStage::AppendSnapshot(header) => {
                let bytes = disk.bytes(&create.snapshot);
                append(builder.as_mut().unwrap(), header, "db.sqlite3", &bytes);
                CreateReply::Did(Ok(()))
            }
            CreateStage::Files(walk) => {
                CreateReply::Files(disk.reply(walk, builder.as_mut().unwrap()))
            }
            CreateStage::FinishTar => {
                encoder = Some(builder.take().unwrap().into_inner().unwrap());
                CreateReply::Did(Ok(()))
            }
            CreateStage::FinishGzip => {
                finished = encoder.take().unwrap().finish().unwrap();
                CreateReply::Did(Ok(()))
            }
            CreateStage::Rename => CreateReply::Did(Ok(())),
            CreateStage::RemovePart(failure) => panic!("{failure:?}"),
            CreateStage::Done(Ok(path)) => break path.clone(),
            CreateStage::Done(Err(failure)) => panic!("{failure:?}"),
        };
        create = create.resume(reply);
    };
    assert_eq!(done, path("/w/vault.tgz"));
    let mut decoded = Vec::new();
    flate2::read::GzDecoder::new(&finished[..]).read_to_end(&mut decoded).unwrap();
    let list = entries(&decoded);
    assert_eq!(list.len(), 1);
    assert_eq!(list[0].0, "db.sqlite3");
    assert_eq!(list[0].1, 0o644);
    assert_eq!(list[0].2, want);
    // The payload is intact under the preserved header.
    assert_eq!(list[0].3, b"snapshot payload");
}

#[test]
fn a_packaging_that_fails_removes_the_part() {
    let io = || Failure::say("io");
    let good = || told(3, Ok(FileTime { seconds: 1, nanos: 0 }));
    let did = || CreateReply::Did(Ok(()));
    let failed = || CreateReply::Did(Err(io()));
    let statted = || begin().resume(CreateReply::Meta(Ok(good())));
    let opened = || statted().resume(did()).resume(did());
    let empty = || CreateReply::Files(WalkReply::Listed(DirEntries::Names(vec![])));
    let broken = || CreateReply::Files(WalkReply::Listed(DirEntries::BrokenEntry(io())));
    let walked = || opened().resume(did()).resume(empty());
    for (create, message) in [
        (begin().resume(CreateReply::Meta(Err(io()))), "stat snapshot /w/snap.db: io"),
        (statted().resume(failed()), "create /w/vault.tgz.part: io"),
        (statted().resume(did()).resume(failed()), "open snapshot /w/snap.db: io"),
        (
            begin().resume(CreateReply::Meta(Ok(told(3, Err(io()))))).resume(did()).resume(did()),
            "read mtime of /w/snap.db: io",
        ),
        (opened().resume(failed()), "append db.sqlite3 to archive: io"),
        (opened().resume(did()).resume(broken()), "io"),
        (walked().resume(failed()), "finalize tar stream: io"),
        (walked().resume(did()).resume(failed()), "write gzip trailer to /w/vault.tgz.part: io"),
        (
            walked().resume(did()).resume(did()).resume(failed()),
            "rename /w/vault.tgz.part -> /w/vault.tgz: io",
        ),
    ] {
        assert!(matches!(create.stage, CreateStage::RemovePart(_)), "{message}");
        match create.resume(CreateReply::Removed).stage {
            CreateStage::Done(Err(failure)) => assert_eq!(failure.full(), message),
            other => panic!("{other:?}"),
        }
    }
}
