//! The snapshot of the database.

use std::time::Duration;

use rusqlite::{Connection, DatabaseName, OpenFlags};

use vaultwarden_backup::db::{
    backup, Backup, BackupReply, BackupStage, BackupStep, BUSY_TIMEOUT_SECONDS,
};
use vaultwarden_backup::failure::Failure;
use vaultwarden_backup::path::FilePath;
use vaultwarden_backup::DatabaseType;

fn path(text: &str) -> FilePath {
    FilePath::from_text(text)
}

fn text(path: &FilePath) -> String {
    String::from_utf8(path.bytes.clone()).unwrap()
}

fn told(result: rusqlite::Result<()>) -> BackupReply {
    BackupReply::Did(result.map_err(|e| Failure::new(e.to_string())))
}

/// Take a snapshot with SQLite itself.
fn take(mut backup: Backup) -> Result<(), Failure> {
    let mut connection: Option<Connection> = None;
    loop {
        let reply = match &backup.stage {
            BackupStage::Waiting(BackupStep::Probe) => {
                BackupReply::Found(std::path::Path::new(&text(&backup.database())).is_file())
            }
            BackupStage::Waiting(BackupStep::Open) => {
                let opened = Connection::open_with_flags(
                    text(&backup.database()),
                    OpenFlags::SQLITE_OPEN_READ_ONLY,
                );
                told(opened.map(|c| connection = Some(c)))
            }
            BackupStage::Waiting(BackupStep::SetTimeout) => told(
                connection.as_ref().unwrap().busy_timeout(Duration::from_secs(BUSY_TIMEOUT_SECONDS)),
            ),
            BackupStage::Waiting(BackupStep::ProbeStale) => {
                BackupReply::Found(std::path::Path::new(&text(&backup.snapshot)).exists())
            }
            BackupStage::Waiting(BackupStep::RemoveStale) => panic!("nothing to remove"),
            BackupStage::Waiting(BackupStep::Copy) => told(
                connection.as_ref().unwrap().backup(DatabaseName::Main, text(&backup.snapshot), None),
            ),
            BackupStage::Done(_) => break,
        };
        backup = backup.resume(reply);
    }
    match backup.stage {
        BackupStage::Done(result) => result,
        _ => unreachable!(),
    }
}

#[test]
fn backup_produces_standalone_snapshot() {
    let tmp = tempfile::tempdir().unwrap();
    let src = tmp.path().join("db.sqlite3");
    let conn = Connection::open(&src).unwrap();
    conn.execute_batch(
        "PRAGMA journal_mode=WAL;
         CREATE TABLE t(v TEXT);
         INSERT INTO t(v) VALUES ('x');",
    )
    .unwrap();

    let dst = tmp.path().join("snap.sqlite3");
    take(backup(
        DatabaseType::Sqlite,
        path(tmp.path().to_str().unwrap()),
        path(dst.to_str().unwrap()),
    ))
    .unwrap();

    // The snapshot is a standalone DB with the row, even though the source
    // is still open (WAL active).
    let conn2 = Connection::open(&dst).unwrap();
    let n: i64 = conn2
        .query_row("SELECT COUNT(*) FROM t", [], |r| r.get(0))
        .unwrap();
    assert_eq!(n, 1);
}

#[test]
fn a_directory_without_database_is_refused() {
    let tmp = tempfile::tempdir().unwrap();
    let dir = tmp.path().to_str().unwrap();
    let failure = take(backup(DatabaseType::Sqlite, path(dir), path("/nowhere"))).unwrap_err();
    assert_eq!(
        failure.full(),
        format!("no db.sqlite3 in source directory {dir} (is this a vaultwarden data directory?)")
    );
}

fn begin() -> Backup {
    backup(DatabaseType::Sqlite, path("/d"), path("/w/snap"))
}

fn failure_of(backup: Backup) -> String {
    match backup.stage {
        BackupStage::Done(Err(failure)) => failure.full(),
        other => panic!("{other:?}"),
    }
}

#[test]
fn each_step_of_a_snapshot_can_fail() {
    let io = || Failure::say("io");
    let did = || BackupReply::Did(Ok(()));
    let failed = || BackupReply::Did(Err(io()));
    let found = || begin().resume(BackupReply::Found(true));
    let ready = || found().resume(did()).resume(did());
    assert_eq!(failure_of(found().resume(failed())), "open database /d/db.sqlite3: io");
    assert_eq!(failure_of(found().resume(did()).resume(failed())), "set busy timeout: io");
    assert_eq!(
        failure_of(ready().resume(BackupReply::Found(true)).resume(failed())),
        "remove stale /w/snap: io"
    );
    assert_eq!(failure_of(ready().resume(BackupReply::Found(false)).resume(failed())), "io");
}

#[test]
fn a_stale_snapshot_is_removed_first() {
    let did = || BackupReply::Did(Ok(()));
    let ready = begin().resume(BackupReply::Found(true)).resume(did()).resume(did());
    assert!(matches!(ready.stage, BackupStage::Waiting(BackupStep::ProbeStale)));
    let removing = ready.resume(BackupReply::Found(true));
    assert!(matches!(removing.stage, BackupStage::Waiting(BackupStep::RemoveStale)));
    let copying = removing.resume(did());
    assert!(matches!(copying.stage, BackupStage::Waiting(BackupStep::Copy)));
    let copying = copying.resume(BackupReply::Found(true));
    assert!(matches!(copying.stage, BackupStage::Waiting(BackupStep::Copy)), "no reply to it");
    assert!(matches!(copying.resume(did()).stage, BackupStage::Done(Ok(()))));
}

#[test]
fn a_busy_database_is_reported_with_advice() {
    let did = || BackupReply::Did(Ok(()));
    for message in ["database is LOCKED", "SQLITE_BUSY (5)"] {
        let copying = begin()
            .resume(BackupReply::Found(true))
            .resume(did())
            .resume(did())
            .resume(BackupReply::Found(false));
        let cause = Failure::say("inner").context(message.to_string());
        assert_eq!(
            failure_of(copying.resume(BackupReply::Did(Err(cause)))),
            format!(
                "database is busy while backing up (the source may be holding a long write \
                 transaction). Try again shortly, or stop the vaultwarden instance first ({message})"
            )
        );
    }
}
