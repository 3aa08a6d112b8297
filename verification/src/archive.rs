//! Packaging and compression: the steps that turn the database snapshot and the
//! rest of the source directory into the finished `.tgz`.
//!
//! The archive is written under a `.part` name, and takes its own name only once
//! it is complete.

use vstd::prelude::*;
use vstd::utf8::encode_utf8;

use crate::config::DB_FILENAME;
use crate::failure::{in_context, tells, Failure};
use crate::files::{
    mtime, mtime_of, walk_after, walk_start, FileMeta, Walk, WalkReply, WalkStage, WalkState,
    WalkWait,
};
use crate::header::{EntryHeader, SNAPSHOT_MODE};
use crate::path::{about, child, renaming, renaming_text, shown, FilePath};
use crate::trace::{after, happened, happened_at, lemma_happened};

verus! {

/// How hard gzip compresses.
pub const GZIP_LEVEL: u32 = 6;

/// What the packaging waits for.
#[derive(Debug)]
pub enum CreateStage {
    /// Look at the snapshot.
    StatSnapshot,
    /// Create the incomplete archive, a gzip stream with a tar stream in it.
    CreatePart(FileMeta),
    /// Open the snapshot.
    OpenSnapshot(FileMeta),
    /// Append the opened snapshot as the database entry.
    AppendSnapshot(EntryHeader),
    /// Whatever the walk through the source directory waits for.
    Files(Walk),
    /// End the tar stream.
    FinishTar,
    /// End the gzip stream.
    FinishGzip,
    /// Give the complete archive its name.
    Rename,
    /// Remove the incomplete archive.
    RemovePart(Failure),
    /// The packaging is over.
    Done(Result<FilePath, Failure>),
}

/// What the packaging waits for, in mathematical terms.
pub ghost enum CreateWait {
    StatSnapshot,
    CreatePart(FileMeta),
    OpenSnapshot(FileMeta),
    AppendSnapshot(EntryHeader),
    Files(WalkState),
    FinishTar,
    FinishGzip,
    Rename,
    RemovePart(Seq<Seq<char>>),
    Done(Result<Seq<u8>, Seq<Seq<char>>>),
}

impl View for CreateStage {
    type V = CreateWait;

    open spec fn view(&self) -> CreateWait {
        match *self {
            CreateStage::StatSnapshot => CreateWait::StatSnapshot,
            CreateStage::CreatePart(meta) => CreateWait::CreatePart(meta),
            CreateStage::OpenSnapshot(meta) => CreateWait::OpenSnapshot(meta),
            CreateStage::AppendSnapshot(header) => CreateWait::AppendSnapshot(header),
            CreateStage::Files(walk) => CreateWait::Files(walk@),
            CreateStage::FinishTar => CreateWait::FinishTar,
            CreateStage::FinishGzip => CreateWait::FinishGzip,
            CreateStage::Rename => CreateWait::Rename,
            CreateStage::RemovePart(failure) => CreateWait::RemovePart(failure@),
            CreateStage::Done(Ok(path)) => CreateWait::Done(Ok(path@)),
            CreateStage::Done(Err(failure)) => CreateWait::Done(Err(failure@)),
        }
    }
}

/// A reply to what the packaging waited for.
#[derive(Debug)]
pub enum CreateReply {
    /// The snapshot was looked at.
    Meta(Result<FileMeta, Failure>),
    /// What was asked was done, or failed.
    Did(Result<(), Failure>),
    /// A reply to the walk.
    Files(WalkReply),
    /// The incomplete archive was removed, as far as it could be.
    Removed,
}

/// The making of one archive.
#[derive(Debug)]
pub struct Create {
    pub workdir: FilePath,
    pub archive_name: String,
    pub snapshot: FilePath,
    pub source: FilePath,
    pub stage: CreateStage,
}

/// The making of one archive, in mathematical terms.
pub ghost struct CreateState {
    pub workdir: Seq<u8>,
    pub archive_name: Seq<char>,
    pub snapshot: Seq<u8>,
    pub source: Seq<u8>,
    pub stage: CreateWait,
}

impl View for Create {
    type V = CreateState;

    open spec fn view(&self) -> CreateState {
        CreateState {
            workdir: self.workdir@,
            archive_name: self.archive_name@,
            snapshot: self.snapshot@,
            source: self.source@,
            stage: self.stage@,
        }
    }
}

impl CreateState {
    /// The path under which the archive is written.
    pub open spec fn part(self) -> Seq<u8> {
        child(self.workdir, encode_utf8(self.archive_name + ".part"@))
    }

    /// The path of the complete archive.
    pub open spec fn complete(self) -> Seq<u8> {
        child(self.workdir, encode_utf8(self.archive_name))
    }

    pub open spec fn at(self, stage: CreateWait) -> CreateState {
        CreateState { stage, ..self }
    }

    /// Once something has failed, the incomplete archive is removed.
    pub open spec fn failed(self, chain: Seq<Seq<char>>) -> CreateState {
        self.at(CreateWait::RemovePart(chain))
    }

    /// On to `stage` if the step succeeded; its failure is put into `context`.
    pub open spec fn if_done(
        self,
        result: Result<(), Failure>,
        context: Seq<char>,
        stage: CreateWait,
    ) -> CreateState {
        match result {
            Ok(_) => self.at(stage),
            Err(cause) => self.failed(in_context(context, cause@)),
        }
    }

    /// The packaging after the reply to what it waited for. Any other reply
    /// leaves it waiting.
    pub open spec fn next(self, reply: CreateReply) -> CreateState {
        match (self.stage, reply) {
            (CreateWait::StatSnapshot, CreateReply::Meta(result)) => match result {
                Ok(meta) => self.at(CreateWait::CreatePart(meta)),
                Err(cause) => self.failed(
                    in_context("stat snapshot "@ + shown(self.snapshot), cause@),
                ),
            },
            (CreateWait::CreatePart(meta), CreateReply::Did(result)) => self.if_done(
                result,
                "create "@ + shown(self.part()),
                CreateWait::OpenSnapshot(meta),
            ),
            (CreateWait::OpenSnapshot(meta), CreateReply::Did(result)) => match (
                result,
                mtime(meta, self.snapshot),
            ) {
                (Err(cause), _) => self.failed(
                    in_context("open snapshot "@ + shown(self.snapshot), cause@),
                ),
                (Ok(_), Err(chain)) => self.failed(chain),
                (Ok(_), Ok(seconds)) => self.at(
                    CreateWait::AppendSnapshot(
                        EntryHeader { size: meta.len, mode: SNAPSHOT_MODE, mtime: seconds },
                    ),
                ),
            },
            (CreateWait::AppendSnapshot(_), CreateReply::Did(result)) => self.if_done(
                result,
                "append db.sqlite3 to archive"@,
                CreateWait::Files(walk_start(self.source, DB_FILENAME@)),
            ),
            (CreateWait::Files(walk), CreateReply::Files(reply)) => match walk.next(reply).stage {
                WalkWait::Done(Ok(_)) => self.at(CreateWait::FinishTar),
                WalkWait::Done(Err(chain)) => self.failed(chain),
                _ => self.at(CreateWait::Files(walk.next(reply))),
            },
            (CreateWait::FinishTar, CreateReply::Did(result)) => self.if_done(
                result,
                "finalize tar stream"@,
                CreateWait::FinishGzip,
            ),
            (CreateWait::FinishGzip, CreateReply::Did(result)) => self.if_done(
                result,
                "write gzip trailer to "@ + shown(self.part()),
                CreateWait::Rename,
            ),
            (CreateWait::Rename, CreateReply::Did(result)) => self.if_done(
                result,
                renaming(self.part(), self.complete()),
                CreateWait::Done(Ok(self.complete())),
            ),
            (CreateWait::RemovePart(chain), CreateReply::Removed) => self.at(
                CreateWait::Done(Err(chain)),
            ),
            _ => self,
        }
    }
}

pub open spec fn create_start(
    workdir: Seq<u8>,
    archive_name: Seq<char>,
    snapshot: Seq<u8>,
    source: Seq<u8>,
) -> CreateState {
    CreateState { workdir, archive_name, snapshot, source, stage: CreateWait::StatSnapshot }
}

/// On to `stage` if the step succeeded, else to the removal.
fn if_done(result: Result<(), Failure>, context: String, stage: CreateStage) -> (r: CreateStage)
    ensures
        r@ == match result {
            Ok(_) => stage@,
            Err(cause) => CreateWait::RemovePart(in_context(context@, cause@)),
        },
{
    match result {
        Ok(_) => stage,
        Err(cause) => CreateStage::RemovePart(cause.context(context)),
    }
}

/// Begin to make `archive_name` in `workdir`, out of the snapshot and the
/// contents of `source`.
pub fn create(
    workdir: FilePath,
    archive_name: String,
    snapshot: FilePath,
    source: FilePath,
) -> (r: Create)
    ensures
        r@ == create_start(workdir@, archive_name@, snapshot@, source@),
{
    Create { workdir, archive_name, snapshot, source, stage: CreateStage::StatSnapshot }
}

impl Create {
    /// The path under which the archive is written.
    pub fn part(&self) -> (r: FilePath)
        ensures
            r@ == self@.part(),
    {
        let mut name = self.archive_name.clone();
        name.append(".part");
        self.workdir.file(name.as_str())
    }

    /// The path of the complete archive.
    pub fn complete(&self) -> (r: FilePath)
        ensures
            r@ == self@.complete(),
    {
        self.workdir.file(self.archive_name.as_str())
    }

    /// Take the reply to what the packaging waited for.
    pub fn resume(self, reply: CreateReply) -> (r: Create)
        ensures
            r@ == self@.next(reply),
    {
        let part = self.part();
        let complete = self.complete();
        let Create { workdir, archive_name, snapshot, source, stage } = self;
        let stage = match (stage, reply) {
            (CreateStage::StatSnapshot, CreateReply::Meta(result)) => match result {
                Ok(meta) => CreateStage::CreatePart(meta),
                Err(cause) => CreateStage::RemovePart(
                    cause.context(about("stat snapshot ", &snapshot)),
                ),
            },
            (CreateStage::CreatePart(meta), CreateReply::Did(result)) => if_done(
                result,
                about("create ", &part),
                CreateStage::OpenSnapshot(meta),
            ),
            (CreateStage::OpenSnapshot(meta), CreateReply::Did(result)) => match result {
                Err(cause) => CreateStage::RemovePart(
                    cause.context(about("open snapshot ", &snapshot)),
                ),
                Ok(_) => match mtime_of(&meta, &snapshot) {
                    Err(failure) => CreateStage::RemovePart(failure),
                    Ok(mtime) => CreateStage::AppendSnapshot(
                        EntryHeader { size: meta.len, mode: SNAPSHOT_MODE, mtime },
                    ),
                },
            },
            (CreateStage::AppendSnapshot(_), CreateReply::Did(result)) => if_done(
                result,
                "append db.sqlite3 to archive".to_string(),
                CreateStage::Files(crate::files::write(&source, DB_FILENAME)),
            ),
            (CreateStage::Files(walk), CreateReply::Files(reply)) => {
                let walk = walk.resume(reply);
                match walk.stage {
                    WalkStage::Done(Ok(_)) => CreateStage::FinishTar,
                    WalkStage::Done(Err(failure)) => CreateStage::RemovePart(failure),
                    _ => CreateStage::Files(walk),
                }
            },
            (CreateStage::FinishTar, CreateReply::Did(result)) => if_done(
                result,
                "finalize tar stream".to_string(),
                CreateStage::FinishGzip,
            ),
            (CreateStage::FinishGzip, CreateReply::Did(result)) => if_done(
                result,
                about("write gzip trailer to ", &part),
                CreateStage::Rename,
            ),
            (CreateStage::Rename, CreateReply::Did(result)) => {
                let context = renaming_text(&part, &complete);
                if_done(result, context, CreateStage::Done(Ok(complete)))
            },
            (CreateStage::RemovePart(failure), CreateReply::Removed) => CreateStage::Done(
                Err(failure),
            ),
            (stage, _) => stage,
        };
        Create { workdir, archive_name, snapshot, source, stage }
    }
}

/// The packaging from `start` after `replies`.
pub open spec fn create_after(start: CreateState, replies: Seq<CreateReply>) -> CreateState {
    after(start, |state: CreateState, reply: CreateReply| state.next(reply), replies)
}

/// Whether it happened in the course of `replies`.
pub open spec fn create_happened(
    start: CreateState,
    replies: Seq<CreateReply>,
    what: spec_fn(CreateState, CreateReply) -> bool,
) -> bool {
    happened(start, |state: CreateState, reply: CreateReply| state.next(reply), replies, what)
}

pub open spec fn snapshot_appended() -> spec_fn(CreateState, CreateReply) -> bool {
    |state: CreateState, reply: CreateReply|
        state.stage is AppendSnapshot && reply matches CreateReply::Did(Ok(_))
}

pub open spec fn files_appended() -> spec_fn(CreateState, CreateReply) -> bool {
    |state: CreateState, reply: CreateReply|
        state.stage is Files && reply is Files && (state.stage->Files_0.next(
            reply->Files_0,
        ).stage matches WalkWait::Done(Ok(_)))
}

pub open spec fn tar_finished() -> spec_fn(CreateState, CreateReply) -> bool {
    |state: CreateState, reply: CreateReply|
        state.stage is FinishTar && reply matches CreateReply::Did(Ok(_))
}

pub open spec fn gzip_finished() -> spec_fn(CreateState, CreateReply) -> bool {
    |state: CreateState, reply: CreateReply|
        state.stage is FinishGzip && reply matches CreateReply::Did(Ok(_))
}

pub open spec fn archive_renamed() -> spec_fn(CreateState, CreateReply) -> bool {
    |state: CreateState, reply: CreateReply|
        state.stage is Rename && reply matches CreateReply::Did(Ok(_))
}

pub open spec fn part_removed() -> spec_fn(CreateState, CreateReply) -> bool {
    |state: CreateState, reply: CreateReply|
        state.stage is RemovePart && reply == CreateReply::Removed
}

/// How far the packaging has come on its way to success.
spec fn progress(stage: CreateWait) -> int {
    match stage {
        CreateWait::Files(_) => 1,
        CreateWait::FinishTar => 2,
        CreateWait::FinishGzip => 3,
        CreateWait::Rename => 4,
        CreateWait::Done(Ok(_)) => 5,
        _ => 0,
    }
}

proof fn lemma_create_step(state: CreateState, reply: CreateReply)
    ensures
        ({
            let then = state.next(reply);
            &&& then == state.at(then.stage)
            &&& progress(then.stage) >= 1 ==> progress(state.stage) >= 1 || snapshot_appended()(
                state,
                reply,
            )
            &&& progress(then.stage) >= 2 ==> progress(state.stage) >= 2 || files_appended()(
                state,
                reply,
            )
            &&& progress(then.stage) >= 3 ==> progress(state.stage) >= 3 || tar_finished()(
                state,
                reply,
            )
            &&& progress(then.stage) >= 4 ==> progress(state.stage) >= 4 || gzip_finished()(
                state,
                reply,
            )
            &&& progress(then.stage) >= 5 ==> progress(state.stage) >= 5 || (archive_renamed()(
                state,
                reply,
            ) && then.stage == CreateWait::Done(Ok(state.complete())))
            &&& then.stage is Done && then.stage->Done_0 is Err ==> state.stage == then.stage
                || part_removed()(state, reply)
            &&& state.stage is Done ==> then == state
        }),
{
}

proof fn lemma_create_history(start: CreateState, replies: Seq<CreateReply>)
    requires
        start.stage is StatSnapshot,
    ensures
        ({
            let state = create_after(start, replies);
            &&& state == start.at(state.stage)
            &&& progress(state.stage) >= 1 ==> create_happened(start, replies, snapshot_appended())
            &&& progress(state.stage) >= 2 ==> create_happened(start, replies, files_appended())
            &&& progress(state.stage) >= 3 ==> create_happened(start, replies, tar_finished())
            &&& progress(state.stage) >= 4 ==> create_happened(start, replies, gzip_finished())
            &&& progress(state.stage) >= 5 ==> create_happened(start, replies, archive_renamed())
            &&& state.stage is Done && state.stage->Done_0 is Err ==> create_happened(
                start,
                replies,
                part_removed(),
            )
            &&& state.stage is Done && state.stage->Done_0 is Ok ==> state.stage->Done_0->Ok_0
                == start.complete()
        }),
    decreases replies.len(),
{
    if replies.len() > 0 {
        let next = |state: CreateState, reply: CreateReply| state.next(reply);
        let before = create_after(start, replies.drop_last());
        let reply = replies.last();
        lemma_create_history(start, replies.drop_last());
        lemma_happened(start, next, replies, snapshot_appended());
        lemma_happened(start, next, replies, files_appended());
        lemma_happened(start, next, replies, tar_finished());
        lemma_happened(start, next, replies, gzip_finished());
        lemma_happened(start, next, replies, archive_renamed());
        lemma_happened(start, next, replies, part_removed());
        lemma_create_step(before, reply);
    }
}

/// The archive takes its own name only after the snapshot and every file have
/// been appended and both streams have been ended, each without a failure.
pub proof fn law_published_only_when_complete(start: CreateState, replies: Seq<CreateReply>)
    requires
        start.stage is StatSnapshot,
        create_after(start, replies).stage is Rename,
    ensures
        create_happened(start, replies, snapshot_appended()),
        create_happened(start, replies, files_appended()),
        create_happened(start, replies, tar_finished()),
        create_happened(start, replies, gzip_finished()),
{
    lemma_create_history(start, replies);
}

/// A packaging that succeeded has renamed the archive, and yields its path; one
/// that failed has seen to it that no incomplete archive is left.
pub proof fn law_create_ends_clean(start: CreateState, replies: Seq<CreateReply>)
    requires
        start.stage is StatSnapshot,
        create_after(start, replies).stage is Done,
    ensures
        match create_after(start, replies).stage->Done_0 {
            Ok(path) => path == start.complete() && create_happened(
                start,
                replies,
                archive_renamed(),
            ),
            Err(_) => create_happened(start, replies, part_removed()),
        },
{
    lemma_create_history(start, replies);
}

/// An archive is written as `<name>.part` in the working directory and lies there
/// as `<name>` once it is complete.
pub proof fn law_archives_are_written_aside(state: CreateState)
    ensures
        state.part() == child(
            state.workdir,
            encode_utf8(state.archive_name + seq!['.', 'p', 'a', 'r', 't']),
        ),
        state.complete() == child(state.workdir, encode_utf8(state.archive_name)),
{
    reveal_strlit(".part");
    assert(".part"@ == seq!['.', 'p', 'a', 'r', 't']);
}

/// The snapshot was looked at, and its entry has this header: its own length and
/// time, and permissions to write for the owner and to read for all.
pub open spec fn snapshot_seen(header: EntryHeader) -> spec_fn(CreateState, CreateReply) -> bool {
    |state: CreateState, reply: CreateReply|
        {
            &&& state.stage is StatSnapshot
            &&& reply matches CreateReply::Meta(Ok(meta)) && header.size == meta.len && header.mode
                == 0o644 && mtime(meta, state.snapshot) == Ok::<u64, Seq<Seq<char>>>(header.mtime)
        }
}

/// The snapshot was looked at, and was found to be like this.
pub open spec fn snapshot_is(meta: FileMeta) -> spec_fn(CreateState, CreateReply) -> bool {
    |state: CreateState, reply: CreateReply|
        state.stage is StatSnapshot && (reply matches CreateReply::Meta(Ok(seen)) && seen == meta)
}

proof fn lemma_snapshot_seen(start: CreateState, replies: Seq<CreateReply>)
    requires
        start.stage is StatSnapshot,
    ensures
        ({
            let stage = create_after(start, replies).stage;
            &&& stage matches CreateWait::CreatePart(meta) ==> create_happened(
                start,
                replies,
                snapshot_is(meta),
            )
            &&& stage matches CreateWait::OpenSnapshot(meta) ==> create_happened(
                start,
                replies,
                snapshot_is(meta),
            )
            &&& stage matches CreateWait::AppendSnapshot(header) ==> create_happened(
                start,
                replies,
                snapshot_seen(header),
            )
        }),
    decreases replies.len(),
{
    if replies.len() > 0 {
        let next = |state: CreateState, reply: CreateReply| state.next(reply);
        let earlier = replies.drop_last();
        let before = create_after(start, earlier);
        lemma_snapshot_seen(start, earlier);
        lemma_create_history(start, earlier);
        match before.next(replies.last()).stage {
            CreateWait::CreatePart(meta) => {
                lemma_happened(start, next, replies, snapshot_is(meta));
            },
            CreateWait::OpenSnapshot(meta) => {
                lemma_happened(start, next, replies, snapshot_is(meta));
            },
            CreateWait::AppendSnapshot(header) => {
                lemma_happened(start, next, replies, snapshot_seen(header));
                if let CreateWait::OpenSnapshot(meta) = before.stage {
                    let what = snapshot_is(meta);
                    let k = choose|k: int| #[trigger] happened_at(start, next, earlier, what, k);
                    lemma_create_history(start, earlier.take(k));
                    assert(happened_at(start, next, earlier, snapshot_seen(header), k));
                }
            },
            _ => {},
        }
    }
}

/// The database entry is headed by what the snapshot was found to be: its length,
/// its modification time, and the permissions `rw-r--r--`.
pub proof fn law_database_entry_is_the_snapshot(start: CreateState, replies: Seq<CreateReply>)
    requires
        start.stage is StatSnapshot,
    ensures
        create_after(start, replies).stage matches CreateWait::AppendSnapshot(header)
            ==> create_happened(start, replies, snapshot_seen(header)),
{
    lemma_snapshot_seen(start, replies);
}

/// The replies that were given to the walk.
pub open spec fn replies_to_walk(start: CreateState, replies: Seq<CreateReply>) -> Seq<WalkReply>
    decreases replies.len(),
{
    if replies.len() == 0 {
        Seq::empty()
    } else {
        let before = replies_to_walk(start, replies.drop_last());
        match (create_after(start, replies.drop_last()).stage, replies.last()) {
            (CreateWait::Files(_), CreateReply::Files(reply)) => before.push(reply),
            _ => before,
        }
    }
}

proof fn lemma_walk_of_the_source(start: CreateState, replies: Seq<CreateReply>)
    requires
        start.stage is StatSnapshot,
    ensures
        ({
            let stage = create_after(start, replies).stage;
            let given = replies_to_walk(start, replies);
            let walk = walk_after(walk_start(start.source, "db.sqlite3"@), given);
            &&& stage is StatSnapshot || stage is CreatePart || stage is OpenSnapshot
                || stage is AppendSnapshot ==> given.len() == 0
            &&& stage matches CreateWait::Files(state) ==> state == walk
            &&& progress(stage) >= 2 ==> (walk.stage matches WalkWait::Done(Ok(_)))
        }),
    decreases replies.len(),
{
    if replies.len() > 0 {
        let earlier = replies.drop_last();
        let before = create_after(start, earlier);
        lemma_walk_of_the_source(start, earlier);
        lemma_create_history(start, earlier);
        lemma_create_step(before, replies.last());
        match (before.stage, replies.last()) {
            (CreateWait::Files(_), CreateReply::Files(reply)) => {
                let given = replies_to_walk(start, replies);
                assert(given.drop_last() == replies_to_walk(start, earlier));
                assert(given.last() == reply);
            },
            _ => {},
        }
    }
}

/// The walk that fills an archive starts from the source itself, leaves out its
/// database, and is given every reply that is meant for it; and an archive whose
/// streams are ended, or that has its name, was filled by such a walk to its end.
pub proof fn law_archives_are_filled_from_the_source(start: CreateState, replies: Seq<CreateReply>)
    requires
        start.stage is StatSnapshot,
    ensures
        ({
            let stage = create_after(start, replies).stage;
            let walk = walk_after(
                walk_start(start.source, "db.sqlite3"@),
                replies_to_walk(start, replies),
            );
            &&& stage matches CreateWait::Files(state) ==> state == walk
            &&& stage is FinishTar || stage is FinishGzip || stage is Rename || (stage matches
                CreateWait::Done(Ok(_))) ==> (walk.stage matches WalkWait::Done(Ok(_)))
        }),
{
    lemma_walk_of_the_source(start, replies);
}

/// A packaging whose every step succeeds goes on to its end.
pub proof fn law_successful_packaging_goes_on(
    state: CreateState,
    meta: FileMeta,
    reply: CreateReply,
)
    ensures
        state.stage is StatSnapshot ==> state.next(CreateReply::Meta(Ok(meta))).stage
            == CreateWait::CreatePart(meta),
        ({
            let then = state.next(CreateReply::Did(Ok(()))).stage;
            &&& state.stage is CreatePart ==> then is OpenSnapshot
            &&& state.stage is OpenSnapshot && mtime(state.stage->OpenSnapshot_0, state.snapshot)
                is Ok ==> then is AppendSnapshot
            &&& state.stage is AppendSnapshot ==> then == CreateWait::Files(
                walk_start(state.source, "db.sqlite3"@),
            )
            &&& state.stage is FinishTar ==> then is FinishGzip
            &&& state.stage is FinishGzip ==> then is Rename
            &&& state.stage is Rename ==> then == CreateWait::Done(
                Ok::<Seq<u8>, Seq<Seq<char>>>(state.complete()),
            )
        }),
        state.stage is Done ==> state.next(reply) == state,
{
}

/// A step of a packaging that fails leads to the removal of the incomplete archive,
/// and then to a failure that tells the cause whole.
pub proof fn law_failed_packaging_tells_why(
    state: CreateState,
    cause: Failure,
    chain: Seq<Seq<char>>,
)
    ensures
        state.stage is StatSnapshot ==> {
            let then = state.next(CreateReply::Meta(Err(cause))).stage;
            then is RemovePart && tells(then->RemovePart_0, cause@)
        },
        state.stage is CreatePart || state.stage is OpenSnapshot || state.stage is AppendSnapshot
            || state.stage is FinishTar || state.stage is FinishGzip || state.stage is Rename ==> {
            let then = state.next(CreateReply::Did(Err(cause))).stage;
            then is RemovePart && tells(then->RemovePart_0, cause@)
        },
        state.stage == CreateWait::RemovePart(chain) ==> state.next(CreateReply::Removed).stage
            == CreateWait::Done(Err::<Seq<u8>, Seq<Seq<char>>>(chain)),
{
}

/// A packaging begins with what it was asked, with a look at the snapshot, and keeps
/// to it, whatever it is replied.
pub proof fn law_packaging_begins_as_asked(
    workdir: Seq<u8>,
    archive_name: Seq<char>,
    snapshot: Seq<u8>,
    source: Seq<u8>,
    replies: Seq<CreateReply>,
)
    ensures
        ({
            let start = create_start(workdir, archive_name, snapshot, source);
            let state = create_after(start, replies);
            &&& start.stage is StatSnapshot
            &&& state.workdir == workdir && state.archive_name == archive_name
            &&& state.snapshot == snapshot && state.source == source
        }),
{
    lemma_create_history(create_start(workdir, archive_name, snapshot, source), replies);
}

} // verus!
