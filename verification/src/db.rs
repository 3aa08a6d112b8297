//! The database: the steps of a standalone snapshot of `db.sqlite3` through
//! SQLite's online backup, safe while the instance is live.

use vstd::prelude::*;
use vstd::utf8::encode_utf8;

use crate::config::{DatabaseType, DB_FILENAME};
use crate::failure::{headline_of, in_context, Failure};
use crate::path::{about, child, shown, FilePath};
use crate::text::{contains, contains_text, lowercase, lowered};
use crate::trace::{after, happened, lemma_happened};

verus! {

/// How long SQLite itself retries while the database is busy, in seconds.
pub const BUSY_TIMEOUT_SECONDS: u64 = 10;

/// What the snapshot waits for.
#[derive(Debug, Clone, Copy, PartialEq, Eq, Structural)]
pub enum BackupStep {
    /// Tell whether the database is a file.
    Probe,
    /// Open the database, for reading only.
    Open,
    /// Have SQLite wait for a busy database.
    SetTimeout,
    /// Tell whether something stands where the snapshot goes.
    ProbeStale,
    /// Remove it.
    RemoveStale,
    /// Copy the database through the online backup.
    Copy,
}

/// Where the snapshot stands.
#[derive(Debug)]
pub enum BackupStage {
    Waiting(BackupStep),
    Done(Result<(), Failure>),
}

/// Where the snapshot stands, in mathematical terms.
pub ghost enum BackupWait {
    Waiting(BackupStep),
    Done(Result<(), Seq<Seq<char>>>),
}

impl View for BackupStage {
    type V = BackupWait;

    open spec fn view(&self) -> BackupWait {
        match *self {
            BackupStage::Waiting(step) => BackupWait::Waiting(step),
            BackupStage::Done(Ok(_)) => BackupWait::Done(Ok(())),
            BackupStage::Done(Err(failure)) => BackupWait::Done(Err(failure@)),
        }
    }
}

/// A reply to what the snapshot waited for.
#[derive(Debug)]
pub enum BackupReply {
    /// Whether it is there.
    Found(bool),
    /// What was asked was done, or failed.
    Did(Result<(), Failure>),
}

/// The making of one snapshot.
#[derive(Debug)]
pub struct Backup {
    /// The data directory.
    pub source: FilePath,
    /// Where the snapshot goes.
    pub snapshot: FilePath,
    pub stage: BackupStage,
}

/// The making of one snapshot, in mathematical terms.
pub ghost struct BackupState {
    pub source: Seq<u8>,
    pub snapshot: Seq<u8>,
    pub stage: BackupWait,
}

impl View for Backup {
    type V = BackupState;

    open spec fn view(&self) -> BackupState {
        BackupState { source: self.source@, snapshot: self.snapshot@, stage: self.stage@ }
    }
}

/// Whether a message of SQLite says that the database is in use.
pub open spec fn says_busy(message: Seq<char>) -> bool {
    contains_text(lowered(message), "busy"@) || contains_text(lowered(message), "locked"@)
}

/// What a failed copy is reported as: a busy database with advice, anything else
/// as it is.
pub open spec fn copy_problem(cause: Seq<Seq<char>>) -> Seq<Seq<char>> {
    if says_busy(headline_of(cause)) {
        seq![
            "database is busy while backing up (the source may be holding a long write transaction). Try again shortly, or stop the vaultwarden instance first ("@
                + headline_of(cause) + ")"@,
        ]
    } else {
        cause
    }
}

/// What a failed copy is reported as.
pub fn copy_failure(cause: Failure) -> (r: Failure)
    ensures
        r@ == copy_problem(cause@),
{
    let message = cause.headline();
    let lower = lowercase(message.as_str());
    if contains(lower.as_str(), "busy") || contains(lower.as_str(), "locked") {
        let mut text =
            "database is busy while backing up (the source may be holding a long write transaction). Try again shortly, or stop the vaultwarden instance first (".to_string();
        text.append(message.as_str());
        text.append(")");
        Failure::new(text)
    } else {
        cause
    }
}

impl BackupState {
    /// The database of the data directory.
    pub open spec fn database(self) -> Seq<u8> {
        child(self.source, encode_utf8(DB_FILENAME@))
    }

    pub open spec fn at(self, step: BackupStep) -> BackupState {
        BackupState { stage: BackupWait::Waiting(step), ..self }
    }

    pub open spec fn failed(self, chain: Seq<Seq<char>>) -> BackupState {
        BackupState { stage: BackupWait::Done(Err(chain)), ..self }
    }

    pub open spec fn succeeded(self) -> BackupState {
        BackupState { stage: BackupWait::Done(Ok(())), ..self }
    }

    /// The snapshot after the reply to what it waited for. Any other reply leaves
    /// it waiting.
    pub open spec fn next(self, reply: BackupReply) -> BackupState {
        match self.stage {
            BackupWait::Done(_) => self,
            BackupWait::Waiting(step) => match (step, reply) {
                (BackupStep::Probe, BackupReply::Found(found)) => if found {
                    self.at(BackupStep::Open)
                } else {
                    self.failed(
                        seq![
                            "no db.sqlite3 in source directory "@ + shown(self.source)
                                + " (is this a vaultwarden data directory?)"@,
                        ],
                    )
                },
                (BackupStep::Open, BackupReply::Did(result)) => match result {
                    Ok(_) => self.at(BackupStep::SetTimeout),
                    Err(cause) => self.failed(
                        in_context("open database "@ + shown(self.database()), cause@),
                    ),
                },
                (BackupStep::SetTimeout, BackupReply::Did(result)) => match result {
                    Ok(_) => self.at(BackupStep::ProbeStale),
                    Err(cause) => self.failed(in_context("set busy timeout"@, cause@)),
                },
                (BackupStep::ProbeStale, BackupReply::Found(found)) => if found {
                    self.at(BackupStep::RemoveStale)
                } else {
                    self.at(BackupStep::Copy)
                },
                (BackupStep::RemoveStale, BackupReply::Did(result)) => match result {
                    Ok(_) => self.at(BackupStep::Copy),
                    Err(cause) => self.failed(
                        in_context("remove stale "@ + shown(self.snapshot), cause@),
                    ),
                },
                (BackupStep::Copy, BackupReply::Did(result)) => match result {
                    Ok(_) => self.succeeded(),
                    Err(cause) => self.failed(copy_problem(cause@)),
                },
                _ => self,
            },
        }
    }
}

/// The snapshot at its beginning.
pub open spec fn backup_start(source: Seq<u8>, snapshot: Seq<u8>) -> BackupState {
    BackupState { source, snapshot, stage: BackupWait::Waiting(BackupStep::Probe) }
}

/// Begin the snapshot of the database in the data directory `source`.
pub fn backup(database_type: DatabaseType, source: FilePath, snapshot: FilePath) -> (r: Backup)
    ensures
        r@ == backup_start(source@, snapshot@),
{
    match database_type {
        DatabaseType::Sqlite => Backup {
            source,
            snapshot,
            stage: BackupStage::Waiting(BackupStep::Probe),
        },
    }
}

impl Backup {
    /// The database of the data directory.
    pub fn database(&self) -> (r: FilePath)
        ensures
            r@ == self@.database(),
    {
        self.source.file(DB_FILENAME)
    }

    /// Take the reply to what the snapshot waited for.
    pub fn resume(self, reply: BackupReply) -> (r: Backup)
        ensures
            r@ == self@.next(reply),
    {
        let database = self.database();
        let Backup { source, snapshot, stage } = self;
        let stage = match stage {
            BackupStage::Done(result) => BackupStage::Done(result),
            BackupStage::Waiting(step) => match (step, reply) {
                (BackupStep::Probe, BackupReply::Found(found)) => if found {
                    BackupStage::Waiting(BackupStep::Open)
                } else {
                    let mut message = about("no db.sqlite3 in source directory ", &source);
                    message.append(" (is this a vaultwarden data directory?)");
                    BackupStage::Done(Err(Failure::new(message)))
                },
                (BackupStep::Open, BackupReply::Did(result)) => match result {
                    Ok(_) => BackupStage::Waiting(BackupStep::SetTimeout),
                    Err(cause) => BackupStage::Done(
                        Err(cause.context(about("open database ", &database))),
                    ),
                },
                (BackupStep::SetTimeout, BackupReply::Did(result)) => match result {
                    Ok(_) => BackupStage::Waiting(BackupStep::ProbeStale),
                    Err(cause) => BackupStage::Done(
                        Err(cause.context("set busy timeout".to_string())),
                    ),
                },
                (BackupStep::ProbeStale, BackupReply::Found(found)) => if found {
                    BackupStage::Waiting(BackupStep::RemoveStale)
                } else {
                    BackupStage::Waiting(BackupStep::Copy)
                },
                (BackupStep::RemoveStale, BackupReply::Did(result)) => match result {
                    Ok(_) => BackupStage::Waiting(BackupStep::Copy),
                    Err(cause) => BackupStage::Done(
                        Err(cause.context(about("remove stale ", &snapshot))),
                    ),
                },
                (BackupStep::Copy, BackupReply::Did(result)) => match result {
                    Ok(_) => BackupStage::Done(Ok(())),
                    Err(cause) => BackupStage::Done(Err(copy_failure(cause))),
                },
                (step, _) => BackupStage::Waiting(step),
            },
        };
        Backup { source, snapshot, stage }
    }
}

/// The snapshot from `start` after `replies`.
pub open spec fn backup_after(start: BackupState, replies: Seq<BackupReply>) -> BackupState {
    after(start, |state: BackupState, reply: BackupReply| state.next(reply), replies)
}

/// Whether it happened in the course of `replies`.
pub open spec fn backup_happened(
    start: BackupState,
    replies: Seq<BackupReply>,
    what: spec_fn(BackupState, BackupReply) -> bool,
) -> bool {
    happened(start, |state: BackupState, reply: BackupReply| state.next(reply), replies, what)
}

/// A step that was answered with success.
pub open spec fn step_done(step: BackupStep) -> spec_fn(BackupState, BackupReply) -> bool {
    |state: BackupState, reply: BackupReply|
        state.stage == BackupWait::Waiting(step) && reply matches BackupReply::Did(Ok(_))
}

/// Nothing was found where the snapshot goes.
pub open spec fn place_is_free() -> spec_fn(BackupState, BackupReply) -> bool {
    |state: BackupState, reply: BackupReply|
        state.stage == BackupWait::Waiting(BackupStep::ProbeStale) && reply == BackupReply::Found(
            false,
        )
}

proof fn lemma_backup_history(start: BackupState, replies: Seq<BackupReply>)
    requires
        start.stage == BackupWait::Waiting(BackupStep::Probe),
    ensures
        ({
            let stage = backup_after(start, replies).stage;
            let late = stage == BackupWait::Waiting(BackupStep::Copy) || stage matches
                BackupWait::Done(Ok(_));
            let opened = late || stage == BackupWait::Waiting(BackupStep::SetTimeout) || stage
                == BackupWait::Waiting(BackupStep::ProbeStale) || stage == BackupWait::Waiting(
                BackupStep::RemoveStale,
            );
            &&& opened ==> backup_happened(start, replies, step_done(BackupStep::Open))
            &&& opened && stage != BackupWait::Waiting(BackupStep::SetTimeout) ==> backup_happened(
                start,
                replies,
                step_done(BackupStep::SetTimeout),
            )
            &&& late ==> backup_happened(start, replies, place_is_free()) || backup_happened(
                start,
                replies,
                step_done(BackupStep::RemoveStale),
            )
            &&& stage matches BackupWait::Done(Ok(_)) ==> backup_happened(
                start,
                replies,
                step_done(BackupStep::Copy),
            )
        }),
    decreases replies.len(),
{
    if replies.len() > 0 {
        let next = |state: BackupState, reply: BackupReply| state.next(reply);
        let before = backup_after(start, replies.drop_last());
        lemma_backup_history(start, replies.drop_last());
        lemma_happened(start, next, replies, step_done(BackupStep::Open));
        lemma_happened(start, next, replies, step_done(BackupStep::SetTimeout));
        lemma_happened(start, next, replies, step_done(BackupStep::RemoveStale));
        lemma_happened(start, next, replies, step_done(BackupStep::Copy));
        lemma_happened(start, next, replies, place_is_free());
    }
}

/// The database is copied only from a connection that was opened for reading and
/// told to wait, and only to a place that is free: what stood there was removed
/// first.
pub proof fn law_snapshot_is_fresh(start: BackupState, replies: Seq<BackupReply>)
    requires
        start.stage == BackupWait::Waiting(BackupStep::Probe),
        backup_after(start, replies).stage == BackupWait::Waiting(BackupStep::Copy),
    ensures
        backup_happened(start, replies, step_done(BackupStep::Open)),
        backup_happened(start, replies, step_done(BackupStep::SetTimeout)),
        backup_happened(start, replies, place_is_free()) || backup_happened(
            start,
            replies,
            step_done(BackupStep::RemoveStale),
        ),
{
    lemma_backup_history(start, replies);
}

/// A snapshot that succeeded was copied without a failure.
pub proof fn law_success_means_copied(start: BackupState, replies: Seq<BackupReply>)
    requires
        start.stage == BackupWait::Waiting(BackupStep::Probe),
        backup_after(start, replies).stage matches BackupWait::Done(Ok(_)),
    ensures
        backup_happened(start, replies, step_done(BackupStep::Copy)),
{
    lemma_backup_history(start, replies);
}

/// A snapshot whose every step succeeds succeeds: the database that lies in the
/// source as `db.sqlite3` is opened, told to wait, and copied, once what stood in
/// the snapshot's place is gone. Source and snapshot stay the same throughout.
pub proof fn law_successful_snapshots_go_on(state: BackupState, reply: BackupReply)
    ensures
        state.database() == child(
            state.source,
            encode_utf8(seq!['d', 'b', '.', 's', 'q', 'l', 'i', 't', 'e', '3']),
        ),
        state.stage == BackupWait::Waiting(BackupStep::Probe) ==> state.next(
            BackupReply::Found(true),
        ).stage == BackupWait::Waiting(BackupStep::Open),
        state.stage == BackupWait::Waiting(BackupStep::Open) ==> state.next(
            BackupReply::Did(Ok(())),
        ).stage == BackupWait::Waiting(BackupStep::SetTimeout),
        state.stage == BackupWait::Waiting(BackupStep::SetTimeout) ==> state.next(
            BackupReply::Did(Ok(())),
        ).stage == BackupWait::Waiting(BackupStep::ProbeStale),
        state.stage == BackupWait::Waiting(BackupStep::ProbeStale) ==> {
            &&& state.next(BackupReply::Found(true)).stage == BackupWait::Waiting(
                BackupStep::RemoveStale,
            )
            &&& state.next(BackupReply::Found(false)).stage == BackupWait::Waiting(BackupStep::Copy)
        },
        state.stage == BackupWait::Waiting(BackupStep::RemoveStale) ==> state.next(
            BackupReply::Did(Ok(())),
        ).stage == BackupWait::Waiting(BackupStep::Copy),
        state.stage == BackupWait::Waiting(BackupStep::Copy) ==> (state.next(
            BackupReply::Did(Ok(())),
        ).stage matches BackupWait::Done(Ok(_))),
        state.next(reply).source == state.source,
        state.next(reply).snapshot == state.snapshot,
        state.stage is Done ==> state.next(reply) == state,
{
    reveal_strlit("db.sqlite3");
    assert("db.sqlite3"@ == seq!['d', 'b', '.', 's', 'q', 'l', 'i', 't', 'e', '3']);
}

/// Without a database in the source there is no snapshot, and a step that fails
/// fails it, with the cause at the end of what is told.
pub proof fn law_failed_steps_fail_the_snapshot(state: BackupState, cause: Failure)
    requires
        state.stage is Waiting,
        cause@.len() > 0,
    ensures
        state.stage == BackupWait::Waiting(BackupStep::Probe) ==> (state.next(
            BackupReply::Found(false),
        ).stage matches BackupWait::Done(Err(_))),
        ({
            let then = state.next(BackupReply::Did(Err(cause))).stage;
            let step = state.stage->Waiting_0;
            &&& step is Open || step is SetTimeout || step is RemoveStale || step is Copy
                ==> then is Done && then->Done_0 is Err
            &&& step is Open || step is SetTimeout || step is RemoveStale
                ==> then->Done_0->Err_0.last() == cause@.last()
        }),
{
}

/// A copy that failed is told with advice exactly if the message says, in whatever
/// letters, that the database is busy or locked; any other failure is told as it
/// is.
pub proof fn law_only_busy_databases_get_advice(cause: Seq<Seq<char>>)
    ensures
        ({
            let said = lowered(headline_of(cause));
            let busy = contains_text(said, seq!['b', 'u', 's', 'y']) || contains_text(
                said,
                seq!['l', 'o', 'c', 'k', 'e', 'd'],
            );
            &&& !busy ==> copy_problem(cause) == cause
            &&& busy ==> copy_problem(cause).len() == 1 && (headline_of(cause) + seq![
                ')',
            ]).is_suffix_of(copy_problem(cause)[0])
        }),
{
    reveal_strlit("busy");
    reveal_strlit("locked");
    reveal_strlit(")");
    assert("busy"@ == seq!['b', 'u', 's', 'y']);
    assert("locked"@ == seq!['l', 'o', 'c', 'k', 'e', 'd']);
    assert(")"@ == seq![')']);
    if says_busy(headline_of(cause)) {
        let text = copy_problem(cause)[0];
        let tail = headline_of(cause) + seq![')'];
        assert(text.subrange(text.len() - tail.len(), text.len() as int) == tail);
    }
}

/// A snapshot begins with the source and the place it was asked for, and with the
/// question whether the database is there.
pub proof fn law_snapshots_begin_as_asked(source: Seq<u8>, snapshot: Seq<u8>)
    ensures
        backup_start(source, snapshot).source == source,
        backup_start(source, snapshot).snapshot == snapshot,
        backup_start(source, snapshot).stage == BackupWait::Waiting(BackupStep::Probe),
{
}

} // verus!
