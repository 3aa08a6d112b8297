//! A whole backup run, from the request to the last cleanup.
//!
//! A run refuses what it can refuse before it does any work. Where a target will
//! lie is foreseen, so that a target in the source's way, or one that holds the
//! artifact already, is refused before any directory is created. A target sees
//! nothing but the finished artifact, and the cleanup begins only after every
//! delivery has succeeded.

use vstd::prelude::*;
use vstd::utf8::encode_utf8;

use crate::archive::{
    create, create_start, Create, CreateReply, CreateStage, CreateState, CreateWait,
};
use crate::calendar::{stamp, stamp_text, Moment};
use crate::config::{
    destinations, object_url, object_url_text, DatabaseType, Delivered, Destination, EncryptionType,
    RetentionPeriod, S3Target, Target,
};
use crate::crypto::{
    check_recipients, encrypt, encrypt_start, format_problem, is_fingerprint, needs_keyring,
    recipients_problem, Encrypt, EncryptReply, EncryptStage, EncryptState, EncryptWait, Listing,
};
use crate::db::{backup, backup_start, Backup, BackupReply, BackupStage, BackupState, BackupWait};
use crate::deliver::{
    cleanup_start, collision_problem, deliver, deliver_start, ensure_targets_free, failure_summary,
    failure_summary_text, Cleanup, CleanupReply, CleanupStage, CleanupState, Deliver, DeliverReply,
    DeliverStage, DeliverState, DeliverWait,
};
use crate::failure::{headline_of, in_context, Failure};
use crate::foresee::{
    foresee, foresight_start, ForeseeStage, ForeseeWait, Foresight, ForesightState, Resolution,
};
use crate::naming::{
    archive_name, archive_name_text, check_archive_name, final_name, final_name_text,
    law_files_are_called_by_name_and_stamp, name_problem,
};
use crate::path::{
    about, child, copy_paths, law_within_means_beginning_with_the_same_names, lies_within, paths,
    same_place, shown, FilePath,
};
use crate::s3::{
    client_failure, client_problem, ensure_object_free, join_prefix, key_of, object_problem,
    prune_start, upload, upload_start, Head, Prune, PruneReply, PruneStage, PruneState, Upload,
    UploadReply, UploadStage, UploadState, UploadWait,
};
use crate::text::{
    copy_texts, first_index, joined, lemma_first_index, lemma_first_index_is_first, texts,
};

verus! {

/// What a run is asked to do.
#[derive(Debug)]
pub struct Request {
    /// The data directory.
    pub local_source: FilePath,
    pub targets: Vec<Target>,
    /// What archives are called.
    pub name: String,
    pub database_type: DatabaseType,
    pub encryption_type: EncryptionType,
    pub recipients: Vec<String>,
    pub retention_period: RetentionPeriod,
}

/// Why mode and recipients do not agree, if they do not: encryption needs
/// recipients, and recipients need encryption.
pub open spec fn mode_problem(encryption: EncryptionType, recipients: nat) -> Option<Seq<char>> {
    match encryption {
        EncryptionType::Plaintext => if recipients > 0 {
            Some(
                "--recipient is given but --encryption-type none requests plaintext; drop --recipient or use --encryption-type openpgp"@,
            )
        } else {
            None
        },
        EncryptionType::Openpgp => if recipients == 0 {
            Some("--encryption-type openpgp requires at least one --recipient"@)
        } else {
            None
        },
    }
}

/// Why a request is refused as it stands, if it is.
pub open spec fn request_problem(request: Request) -> Option<Seq<Seq<char>>> {
    match name_problem(request.name@) {
        Some(error) => Some(seq![error.message_text(request.name@)]),
        None => match mode_problem(request.encryption_type, request.recipients@.len()) {
            Some(text) => Some(seq![text]),
            None => if request.targets@.len() == 0 {
                Some(
                    seq![
                        "at least one target is required (--local-target and/or --s3-bucket)"@,
                    ],
                )
            } else {
                format_problem(texts(request.recipients@))
            },
        },
    }
}

/// Refuse what can be refused from the request alone.
pub fn check_request(request: &Request) -> (r: Result<(), Failure>)
    ensures
        match r {
            Ok(_) => request_problem(*request) is None,
            Err(failure) => request_problem(*request) == Some(failure@),
        },
{
    match check_archive_name(request.name.as_str()) {
        Err(error) => {
            return Err(Failure::new(error.message(request.name.as_str())));
        },
        Ok(_) => {},
    }
    match request.encryption_type {
        EncryptionType::Plaintext => if request.recipients.len() > 0 {
            return Err(
                Failure::say(
                    "--recipient is given but --encryption-type none requests plaintext; drop --recipient or use --encryption-type openpgp",
                ),
            );
        },
        EncryptionType::Openpgp => if request.recipients.len() == 0 {
            return Err(
                Failure::say("--encryption-type openpgp requires at least one --recipient"),
            );
        },
    }
    if request.targets.len() == 0 {
        return Err(
            Failure::say("at least one target is required (--local-target and/or --s3-bucket)"),
        );
    }
    match needs_keyring(&request.recipients) {
        Err(failure) => Err(failure),
        Ok(_) => Ok(()),
    }
}

/// The local directories among `targets`, in order.
pub open spec fn local_dirs(targets: Seq<Target>) -> Seq<Seq<u8>>
    decreases targets.len(),
{
    if targets.len() == 0 {
        Seq::empty()
    } else {
        match targets.last() {
            Target::Local { dir } => local_dirs(targets.drop_last()).push(dir@),
            Target::S3(_) => local_dirs(targets.drop_last()),
        }
    }
}

/// The S3 targets among `targets`, in order.
pub open spec fn s3_targets(targets: Seq<Target>) -> Seq<S3Target>
    decreases targets.len(),
{
    if targets.len() == 0 {
        Seq::empty()
    } else {
        match targets.last() {
            Target::Local { .. } => s3_targets(targets.drop_last()),
            Target::S3(target) => s3_targets(targets.drop_last()).push(target),
        }
    }
}

/// The S3 target among `targets`, if there is one.
pub open spec fn s3_target(targets: Seq<Target>) -> Option<S3Target> {
    if s3_targets(targets).len() == 0 {
        None
    } else {
        Some(s3_targets(targets)[0])
    }
}

proof fn lemma_s3_targets_grow(targets: Seq<Target>, i: int)
    requires
        0 <= i <= targets.len(),
    ensures
        s3_targets(targets.take(i)).len() <= s3_targets(targets).len(),
    decreases targets.len() - i,
{
    if i == targets.len() {
        assert(targets.take(i) == targets);
    } else {
        lemma_s3_targets_grow(targets, i + 1);
        assert(targets.take(i + 1).drop_last() == targets.take(i));
    }
}

/// What is said of a second S3 target.
pub open spec fn second_s3_problem() -> Seq<Seq<char>> {
    seq!["at most one S3 target per run (--s3-* flags configure a single bucket)"@]
}

/// Split the targets into local directories and the S3 target. A second S3 target
/// is refused rather than dropped.
pub fn split_targets(targets: &Vec<Target>) -> (r: Result<
    (Vec<FilePath>, Option<S3Target>),
    Failure,
>)
    ensures
        match r {
            Ok((dirs, s3)) => {
                &&& s3_targets(targets@).len() <= 1
                &&& paths(dirs@) == local_dirs(targets@)
                &&& s3 == s3_target(targets@)
            },
            Err(failure) => s3_targets(targets@).len() > 1 && failure@ == second_s3_problem(),
        },
{
    let mut dirs: Vec<FilePath> = Vec::new();
    let mut s3: Option<S3Target> = None;
    assert(paths(dirs@) == local_dirs(targets@.take(0)));
    for i in 0..targets.len()
        invariant
            paths(dirs@) == local_dirs(targets@.take(i as int)),
            s3_targets(targets@.take(i as int)).len() <= 1,
            s3 == s3_target(targets@.take(i as int)),
    {
        let ghost before = paths(dirs@);
        assert(targets@.take(i + 1).drop_last() == targets@.take(i as int));
        match &targets[i] {
            Target::Local { dir } => {
                dirs.push(dir.clone());
                assert(paths(dirs@) == before.push(dir@));
            },
            Target::S3(target) => {
                if s3.is_some() {
                    proof {
                        lemma_s3_targets_grow(targets@, i + 1);
                    }
                    return Err(
                        Failure::say(
                            "at most one S3 target per run (--s3-* flags configure a single bucket)",
                        ),
                    );
                }
                s3 = Some(target.clone());
            },
        }
    }
    assert(targets@.take(targets@.len() as int) == targets@);
    Ok((dirs, s3))
}

/// Whether one of `targets` spells the same place as `dir`.
pub open spec fn holds_place(targets: Seq<Seq<u8>>, dir: Seq<u8>) -> bool {
    exists|i: int| 0 <= i < targets.len() && same_place(#[trigger] targets[i], dir)
}

/// `targets` with `dir` behind them, unless its place is among them already: a
/// directory that is given twice is served once.
pub open spec fn with_place(targets: Seq<Seq<u8>>, dir: Seq<u8>) -> Seq<Seq<u8>> {
    if holds_place(targets, dir) {
        targets
    } else {
        targets.push(dir)
    }
}

/// Put `dir` behind `targets`, unless its place is among them already.
pub fn add_place(targets: &mut Vec<FilePath>, dir: FilePath)
    ensures
        paths(final(targets)@) == with_place(paths(old(targets)@), dir@),
{
    let ghost before = paths(targets@);
    for i in 0..targets.len()
        invariant
            before == paths(targets@),
            forall|j: int| 0 <= j < i ==> !same_place(#[trigger] before[j], dir@),
    {
        assert(before[i as int] == targets@[i as int]@);
        if targets[i].same_place(&dir) {
            assert(holds_place(before, dir@));
            return;
        }
    }
    targets.push(dir);
    assert(paths(targets@) == before.push(dir@));
}

/// Whether a target and the source are in each other's way: the same, or one
/// inside the other.
pub open spec fn clashes(source: Seq<u8>, target: Seq<u8>) -> bool {
    same_place(target, source) || lies_within(target, source) || lies_within(source, target)
}

/// Why the targets cannot be used with the source, if they cannot: the first that
/// is in the way is named. An archive inside its own input would be read by the
/// next run.
pub open spec fn nesting_problem(source: Seq<u8>, targets: Seq<Seq<u8>>) -> Option<Seq<Seq<char>>> {
    let bad = first_index(targets, |target: Seq<u8>| clashes(source, target));
    if bad >= targets.len() {
        None
    } else if same_place(targets[bad], source) {
        Some(
            seq![
                "source and target must be different directories ("@ + shown(targets[bad]) + ")"@,
            ],
        )
    } else {
        Some(seq!["source and target must not be nested ("@ + shown(targets[bad]) + ")"@])
    }
}

/// Refuse targets that are in the source's way.
pub fn check_nesting(source: &FilePath, targets: &Vec<FilePath>) -> (r: Result<(), Failure>)
    ensures
        match r {
            Ok(_) => nesting_problem(source@, paths(targets@)) is None,
            Err(failure) => nesting_problem(source@, paths(targets@)) == Some(failure@),
        },
{
    let ghost all = paths(targets@);
    let ghost bad = |target: Seq<u8>| clashes(source@, target);
    for i in 0..targets.len()
        invariant
            all == paths(targets@),
            bad == (|target: Seq<u8>| clashes(source@, target)),
            forall|j: int| 0 <= j < i ==> !bad(#[trigger] all[j]),
    {
        assert(all[i as int] == targets@[i as int]@);
        let target = &targets[i];
        if target.same_place(source) {
            proof {
                lemma_first_index(all, bad, i as int);
            }
            let mut message = about("source and target must be different directories (", target);
            message.append(")");
            return Err(Failure::new(message));
        }
        if target.lies_within(source) || source.lies_within(target) {
            proof {
                lemma_first_index(all, bad, i as int);
            }
            let mut message = about("source and target must not be nested (", target);
            message.append(")");
            return Err(Failure::new(message));
        }
    }
    proof {
        lemma_first_index(all, bad, all.len() as int);
    }
    Ok(())
}

/// What a run knows and has done so far.
#[derive(Debug)]
pub struct Job {
    pub request: Request,
    /// The process that runs.
    pub process: u32,
    /// The stamp of the run's start.
    pub stamp: String,
    /// The data directory, resolved.
    pub source: FilePath,
    /// The local targets, as given.
    pub dirs: Vec<FilePath>,
    pub s3: Option<S3Target>,
    /// Where the local targets will lie, each place once.
    pub foreseen: Vec<FilePath>,
    /// The local targets, resolved, each once.
    pub targets: Vec<FilePath>,
    /// Whether the scratch directory has been created.
    pub scratch: bool,
    /// The scratch directory.
    pub work: FilePath,
    /// What is delivered.
    pub artifact: FilePath,
    /// Where it has arrived locally.
    pub delivered: Vec<FilePath>,
    /// What has failed.
    pub failures: Vec<String>,
}

/// What a run knows and has done so far, in mathematical terms.
pub ghost struct JobState {
    pub request: Request,
    pub process: nat,
    pub stamp: Seq<char>,
    pub source: Seq<u8>,
    pub dirs: Seq<Seq<u8>>,
    pub s3: Option<S3Target>,
    pub foreseen: Seq<Seq<u8>>,
    pub targets: Seq<Seq<u8>>,
    pub scratch: bool,
    pub work: Seq<u8>,
    pub artifact: Seq<u8>,
    pub delivered: Seq<Seq<u8>>,
    pub failures: Seq<Seq<char>>,
}

impl View for Job {
    type V = JobState;

    open spec fn view(&self) -> JobState {
        JobState {
            request: self.request,
            process: self.process as nat,
            stamp: self.stamp@,
            source: self.source@,
            dirs: paths(self.dirs@),
            s3: self.s3,
            foreseen: paths(self.foreseen@),
            targets: paths(self.targets@),
            scratch: self.scratch,
            work: self.work@,
            artifact: self.artifact@,
            delivered: paths(self.delivered@),
            failures: texts(self.failures@),
        }
    }
}

/// What a run waits for.
#[derive(Debug)]
pub enum RunStage {
    /// List the keys of the keyring.
    ListKeys,
    /// Read the clock, for the stamp.
    ReadClock,
    /// Resolve the path of the data directory.
    ResolveSource,
    /// Tell whether the resolved source is a directory.
    ProbeSource,
    /// Whatever it takes to foresee where this one of the local targets will lie.
    ForeseeTarget(usize, Foresight),
    /// Tell whether the next foreseen target holds the artifact; these were told
    /// already.
    CheckTargets(Vec<bool>),
    /// Make the client of the object store.
    Connect,
    /// Look for the object.
    HeadObject,
    /// Create this one of the local targets.
    CreateTarget(usize),
    /// Resolve the path of this one of the local targets.
    ResolveTarget(usize),
    /// Tell once more whether the next target holds the artifact; these were told
    /// already.
    RecheckTargets(Vec<bool>),
    /// Create the scratch directory.
    MakeScratch,
    /// Whatever the snapshot of the database waits for.
    Snapshot(Backup),
    /// Whatever the packaging waits for.
    Package(Create),
    /// Remove the snapshot: its content is in the archive now.
    DropSnapshot,
    /// Whatever the encryption waits for.
    Encrypt(Encrypt),
    /// Whatever the delivery to the local targets waits for.
    Deliver(Deliver),
    /// Whatever the upload waits for.
    Upload(Upload),
    /// Read the clock, for the cleanup.
    ReadClockAgain,
    /// Whatever the cleanup of this one of the targets waits for.
    CleanTarget(usize, Cleanup),
    /// Whatever the cleanup of the bucket waits for.
    CleanBucket(Prune),
    /// Remove the scratch directory, whatever the run came to.
    DropScratch(Result<Vec<Delivered>, Failure>),
    /// The run is over.
    Done(Result<Vec<Delivered>, Failure>),
}

/// What a run waits for, in mathematical terms.
pub ghost enum RunWait {
    ListKeys,
    ReadClock,
    ResolveSource,
    ProbeSource,
    ForeseeTarget(int, ForesightState),
    CheckTargets(Seq<bool>),
    Connect,
    HeadObject,
    CreateTarget(int),
    ResolveTarget(int),
    RecheckTargets(Seq<bool>),
    MakeScratch,
    Snapshot(BackupState),
    Package(CreateState),
    DropSnapshot,
    Encrypt(EncryptState),
    Deliver(DeliverState),
    Upload(UploadState),
    ReadClockAgain,
    CleanTarget(int, CleanupState),
    CleanBucket(PruneState),
    DropScratch(Result<Seq<Destination>, Seq<Seq<char>>>),
    Done(Result<Seq<Destination>, Seq<Seq<char>>>),
}

/// What a run came to, in mathematical terms.
pub open spec fn outcome(result: Result<Vec<Delivered>, Failure>) -> Result<
    Seq<Destination>,
    Seq<Seq<char>>,
> {
    match result {
        Ok(list) => Ok(destinations(list@)),
        Err(failure) => Err(failure@),
    }
}

impl View for RunStage {
    type V = RunWait;

    open spec fn view(&self) -> RunWait {
        match *self {
            RunStage::ListKeys => RunWait::ListKeys,
            RunStage::ReadClock => RunWait::ReadClock,
            RunStage::ResolveSource => RunWait::ResolveSource,
            RunStage::ProbeSource => RunWait::ProbeSource,
            RunStage::ForeseeTarget(i, foresight) => RunWait::ForeseeTarget(i as int, foresight@),
            RunStage::CheckTargets(taken) => RunWait::CheckTargets(taken@),
            RunStage::Connect => RunWait::Connect,
            RunStage::HeadObject => RunWait::HeadObject,
            RunStage::CreateTarget(i) => RunWait::CreateTarget(i as int),
            RunStage::ResolveTarget(i) => RunWait::ResolveTarget(i as int),
            RunStage::RecheckTargets(taken) => RunWait::RecheckTargets(taken@),
            RunStage::MakeScratch => RunWait::MakeScratch,
            RunStage::Snapshot(backup) => RunWait::Snapshot(backup@),
            RunStage::Package(create) => RunWait::Package(create@),
            RunStage::DropSnapshot => RunWait::DropSnapshot,
            RunStage::Encrypt(encrypt) => RunWait::Encrypt(encrypt@),
            RunStage::Deliver(deliver) => RunWait::Deliver(deliver@),
            RunStage::Upload(upload) => RunWait::Upload(upload@),
            RunStage::ReadClockAgain => RunWait::ReadClockAgain,
            RunStage::CleanTarget(i, cleanup) => RunWait::CleanTarget(i as int, cleanup@),
            RunStage::CleanBucket(prune) => RunWait::CleanBucket(prune@),
            RunStage::DropScratch(result) => RunWait::DropScratch(outcome(result)),
            RunStage::Done(result) => RunWait::Done(outcome(result)),
        }
    }
}

/// A reply to what a run waited for.
#[derive(Debug)]
pub enum RunReply {
    /// The keys that were listed.
    Keys(Listing),
    /// The time of day.
    Clock(Moment),
    /// The resolved path.
    Resolved(Result<FilePath, Failure>),
    /// What became of resolving a path that may not exist yet.
    Foreseen(Resolution),
    /// Whether it is so.
    Is(bool),
    /// What was asked was done, or failed.
    Did(Result<(), Failure>),
    /// What became of looking for the object.
    Head(Head),
    /// The scratch directory.
    Scratch(Result<FilePath, Failure>),
    /// What was to be removed was, as far as it could be.
    Dropped,
    /// A reply to the snapshot of the database.
    Snapshot(BackupReply),
    /// A reply to the packaging.
    Package(CreateReply),
    /// A reply to the encryption.
    Encrypt(EncryptReply),
    /// A reply to the delivery.
    Deliver(DeliverReply),
    /// A reply to the upload.
    Upload(UploadReply),
    /// A reply to the cleanup of a target.
    CleanTarget(CleanupReply),
    /// A reply to the cleanup of the bucket.
    CleanBucket(PruneReply),
}

/// A backup run.
#[derive(Debug)]
pub struct Run {
    pub job: Job,
    pub stage: RunStage,
}

/// A backup run, in mathematical terms.
pub ghost struct RunState {
    pub job: JobState,
    pub stage: RunWait,
}

impl View for Run {
    type V = RunState;

    open spec fn view(&self) -> RunState {
        RunState { job: self.job@, stage: self.stage@ }
    }
}

impl JobState {
    pub open spec fn archive_name(self) -> Seq<char> {
        archive_name_text(self.request.name@, self.stamp)
    }

    pub open spec fn final_name(self) -> Seq<char> {
        final_name_text(self.archive_name(), self.request.encryption_type)
    }

    /// Where the snapshot of the database goes.
    pub open spec fn snapshot(self) -> Seq<u8> {
        child(self.work, encode_utf8(self.archive_name() + ".db-part"@))
    }

    /// The key of the artifact in the object store.
    pub open spec fn key(self) -> Seq<char> {
        key_of(self.s3->0.prefix@, self.final_name())
    }

    /// How many targets the run has.
    pub open spec fn total(self) -> nat {
        if self.s3 is Some {
            self.targets.len() + 1
        } else {
            self.targets.len()
        }
    }

    /// What a successful run reports: the local copies in order, then the object.
    pub open spec fn report(self) -> Seq<Destination> {
        let local = self.delivered.map_values(|path: Seq<u8>| Destination::Local(path));
        match self.s3 {
            Some(s3) => local.push(Destination::S3 { bucket: s3.bucket@, key: self.key() }),
            None => local,
        }
    }

    pub open spec fn at(self, stage: RunWait) -> RunState {
        RunState { job: self, stage }
    }

    /// The run has come to its outcome: the scratch directory goes, if there is
    /// one, and it is over.
    pub open spec fn over(self, result: Result<Seq<Destination>, Seq<Seq<char>>>) -> RunState {
        if self.scratch {
            self.at(RunWait::DropScratch(result))
        } else {
            self.at(RunWait::Done(result))
        }
    }

    pub open spec fn failed(self, chain: Seq<Seq<char>>) -> RunState {
        self.over(Err(chain))
    }

    /// On to foreseeing the `i`-th local target; behind the last one the foreseen
    /// targets are held against the source.
    pub open spec fn to_foresight(self, i: int) -> RunState {
        if i < self.dirs.len() {
            self.at(RunWait::ForeseeTarget(i, foresight_start(self.dirs[i])))
        } else {
            match nesting_problem(self.source, self.foreseen) {
                Some(chain) => self.failed(chain),
                None => self.to_check(Seq::empty()),
            }
        }
    }

    /// On with the check of the foreseen targets, of which these were told; then to
    /// the object store, where one is given.
    pub open spec fn to_check(self, taken: Seq<bool>) -> RunState {
        if taken.len() < self.foreseen.len() {
            self.at(RunWait::CheckTargets(taken))
        } else {
            match collision_problem(self.foreseen, taken, self.final_name()) {
                Some(chain) => self.failed(chain),
                None => if self.s3 is Some {
                    self.at(RunWait::Connect)
                } else {
                    self.to_target(0)
                },
            }
        }
    }

    /// On to creating the `i`-th local target; behind the last one the targets are
    /// held against the source once more, now that they exist.
    pub open spec fn to_target(self, i: int) -> RunState {
        if i < self.dirs.len() {
            self.at(RunWait::CreateTarget(i))
        } else {
            match nesting_problem(self.source, self.targets) {
                Some(chain) => self.failed(chain),
                None => self.to_recheck(Seq::empty()),
            }
        }
    }

    /// On with the second check of the targets, of which these were told.
    pub open spec fn to_recheck(self, taken: Seq<bool>) -> RunState {
        if taken.len() < self.targets.len() {
            self.at(RunWait::RecheckTargets(taken))
        } else {
            match collision_problem(self.targets, taken, self.final_name()) {
                Some(chain) => self.failed(chain),
                None => self.at(RunWait::MakeScratch),
            }
        }
    }

    /// On to the encryption, where one is asked for.
    pub open spec fn to_encryption(self) -> RunState {
        match self.request.encryption_type {
            EncryptionType::Plaintext => self.to_delivery(),
            EncryptionType::Openpgp => self.encrypting(
                encrypt_start(self.artifact, texts(self.request.recipients@)),
            ),
        }
    }

    /// The run, now that the encryption stands like this. Only the ciphertext is
    /// delivered.
    pub open spec fn encrypting(self, encrypt: EncryptState) -> RunState {
        match encrypt.stage {
            EncryptWait::Done(Ok(path)) => JobState { artifact: path, ..self }.to_delivery(),
            EncryptWait::Done(Err(chain)) => self.failed(chain),
            _ => self.at(RunWait::Encrypt(encrypt)),
        }
    }

    /// On to the local targets, where there are any.
    pub open spec fn to_delivery(self) -> RunState {
        if self.targets.len() > 0 {
            self.delivering(deliver_start(self.artifact, self.targets, self.process))
        } else {
            self.to_upload()
        }
    }

    /// The run, now that the delivery stands like this. Its failure does not keep
    /// the object store from being served.
    pub open spec fn delivering(self, deliver: DeliverState) -> RunState {
        match deliver.stage {
            DeliverWait::Done(Ok(list)) => JobState { delivered: list, ..self }.to_upload(),
            DeliverWait::Done(Err(chain)) => JobState {
                failures: self.failures.push(headline_of(chain)),
                ..self
            }.to_upload(),
            _ => self.at(RunWait::Deliver(deliver)),
        }
    }

    /// On to the object store, where one is given.
    pub open spec fn to_upload(self) -> RunState {
        match self.s3 {
            Some(_) => self.at(RunWait::Upload(upload_start(self.artifact, self.key()))),
            None => self.to_verdict(),
        }
    }

    /// The run, now that the upload stands like this.
    pub open spec fn uploading(self, upload: UploadState) -> RunState {
        match upload.stage {
            UploadWait::Done(Ok(_)) => self.to_verdict(),
            UploadWait::Done(Err(chain)) => JobState {
                failures: self.failures.push(
                    object_url(self.s3->0.bucket@, self.key()) + ": "@ + joined(chain, ": "@),
                ),
                ..self
            }.to_verdict(),
            _ => self.at(RunWait::Upload(upload)),
        }
    }

    /// Every delivery has been tried: one failure is reported as it is, several
    /// are summed up, and only without any does the cleanup begin.
    pub open spec fn to_verdict(self) -> RunState {
        if self.failures.len() == 0 {
            self.at(RunWait::ReadClockAgain)
        } else if self.failures.len() == 1 {
            self.failed(seq![self.failures[0]])
        } else {
            self.failed(seq![failure_summary(self.failures, self.total())])
        }
    }

    /// On to the cleanup of the `i`-th target, then of the bucket.
    pub open spec fn to_cleanup(self, i: int, now: int) -> RunState {
        let period = self.request.retention_period;
        if i < self.targets.len() {
            self.at(
                RunWait::CleanTarget(
                    i,
                    cleanup_start(self.targets[i], self.request.name@, self.stamp, now, period),
                ),
            )
        } else {
            match self.s3 {
                Some(s3) => self.at(
                    RunWait::CleanBucket(
                        prune_start(
                            s3.bucket@,
                            s3.prefix@,
                            self.request.name@,
                            self.stamp,
                            now,
                            period,
                        ),
                    ),
                ),
                None => self.over(Ok(self.report())),
            }
        }
    }
}

impl JobState {
    /// The keyring was listed, and the recipients are held against it.
    #[verifier::opaque]
    pub open spec fn after_list_keys(self, reply: RunReply) -> RunState {
        match reply {
            RunReply::Keys(listing) => match recipients_problem(
                texts(self.request.recipients@),
                listing,
            ) {
                Some(chain) => self.failed(chain),
                None => self.at(RunWait::ReadClock),
            },
            _ => self.at(RunWait::ListKeys),
        }
    }

    /// The clock was read: its moment is the stamp of the run.
    #[verifier::opaque]
    pub open spec fn after_read_clock(self, reply: RunReply) -> RunState {
        match reply {
            RunReply::Clock(now) => JobState {
                stamp: stamp_text(now@),
                ..self
            }.at(RunWait::ResolveSource),
            _ => self.at(RunWait::ReadClock),
        }
    }

    /// The path of the data directory was resolved.
    #[verifier::opaque]
    pub open spec fn after_resolve_source(self, reply: RunReply) -> RunState {
        match reply {
            RunReply::Resolved(result) => match result {
                Ok(path) => JobState { source: path@, ..self }.at(RunWait::ProbeSource),
                Err(cause) => self.failed(
                    in_context(
                        "source directory '"@ + shown(self.request.local_source@)
                            + "' does not exist or is not accessible"@,
                        cause@,
                    ),
                ),
            },
            _ => self.at(RunWait::ResolveSource),
        }
    }

    /// The source was looked at; the targets are parted into local ones and the
    /// object store.
    #[verifier::opaque]
    pub open spec fn after_probe_source(self, reply: RunReply) -> RunState {
        match reply {
            RunReply::Is(directory) => if !directory {
                self.failed(seq!["source '"@ + shown(self.source) + "' is not a directory"@])
            } else if s3_targets(self.request.targets@).len() > 1 {
                self.failed(second_s3_problem())
            } else {
                JobState {
                    dirs: local_dirs(self.request.targets@),
                    s3: s3_target(self.request.targets@),
                    ..self
                }.to_foresight(0)
            },
            _ => self.at(RunWait::ProbeSource),
        }
    }

    /// The foresight of a local target went on. What keeps a path from being
    /// followed keeps it from being created. A foreseen place counts once.
    #[verifier::opaque]
    pub open spec fn after_foresee_target(
        self,
        i: int,
        foresight: ForesightState,
        reply: RunReply,
    ) -> RunState {
        match reply {
            RunReply::Foreseen(reply) => if i >= self.dirs.len() {
                self.at(RunWait::ForeseeTarget(i, foresight))
            } else {
                match foresight.next(reply).stage {
                    ForeseeWait::Done(Ok(path)) => JobState {
                        foreseen: with_place(self.foreseen, path),
                        ..self
                    }.to_foresight(i + 1),
                    ForeseeWait::Done(Err(chain)) => self.failed(
                        in_context("create target directory "@ + shown(self.dirs[i]), chain),
                    ),
                    _ => self.at(RunWait::ForeseeTarget(i, foresight.next(reply))),
                }
            },
            _ => self.at(RunWait::ForeseeTarget(i, foresight)),
        }
    }

    /// A local target was created.
    #[verifier::opaque]
    pub open spec fn after_create_target(self, i: int, reply: RunReply) -> RunState {
        match reply {
            RunReply::Did(result) => if i >= self.dirs.len() {
                self.at(RunWait::CreateTarget(i))
            } else {
                match result {
                    Ok(_) => self.at(RunWait::ResolveTarget(i)),
                    Err(cause) => self.failed(
                        in_context("create target directory "@ + shown(self.dirs[i]), cause@),
                    ),
                }
            },
            _ => self.at(RunWait::CreateTarget(i)),
        }
    }

    /// A local target was resolved; its place counts once.
    #[verifier::opaque]
    pub open spec fn after_resolve_target(self, i: int, reply: RunReply) -> RunState {
        match reply {
            RunReply::Resolved(result) => if i >= self.dirs.len() {
                self.at(RunWait::ResolveTarget(i))
            } else {
                match result {
                    Ok(path) => JobState {
                        targets: with_place(self.targets, path@),
                        ..self
                    }.to_target(i + 1),
                    Err(cause) => self.failed(
                        in_context("canonicalize target directory "@ + shown(self.dirs[i]), cause@),
                    ),
                }
            },
            _ => self.at(RunWait::ResolveTarget(i)),
        }
    }

    /// A foreseen target was looked at for the artifact.
    #[verifier::opaque]
    pub open spec fn after_check_targets(self, taken: Seq<bool>, reply: RunReply) -> RunState {
        match reply {
            RunReply::Is(found) => self.to_check(taken.push(found)),
            _ => self.at(RunWait::CheckTargets(taken)),
        }
    }

    /// A target was looked at for the artifact once more.
    #[verifier::opaque]
    pub open spec fn after_recheck_targets(self, taken: Seq<bool>, reply: RunReply) -> RunState {
        match reply {
            RunReply::Is(found) => self.to_recheck(taken.push(found)),
            _ => self.at(RunWait::RecheckTargets(taken)),
        }
    }

    /// The client of the object store was made.
    #[verifier::opaque]
    pub open spec fn after_connect(self, reply: RunReply) -> RunState {
        match reply {
            RunReply::Did(result) => match (result, self.s3) {
                (Ok(_), Some(_)) => self.at(RunWait::HeadObject),
                (Err(cause), Some(s3)) => self.failed(client_problem(s3.endpoint@, cause@)),
                _ => self.at(RunWait::Connect),
            },
            _ => self.at(RunWait::Connect),
        }
    }

    /// The object was looked for.
    #[verifier::opaque]
    pub open spec fn after_head_object(self, reply: RunReply) -> RunState {
        match reply {
            RunReply::Head(head) => if self.s3 is None {
                self.at(RunWait::HeadObject)
            } else {
                match object_problem(head, self.key()) {
                    Some(chain) => self.failed(chain),
                    None => self.to_target(0),
                }
            },
            _ => self.at(RunWait::HeadObject),
        }
    }

    /// The scratch directory was created, and the snapshot begins.
    #[verifier::opaque]
    pub open spec fn after_make_scratch(self, reply: RunReply) -> RunState {
        match reply {
            RunReply::Scratch(result) => match result {
                Ok(path) => {
                    let then = JobState { scratch: true, work: path@, ..self };
                    then.at(RunWait::Snapshot(backup_start(then.source, then.snapshot())))
                },
                Err(cause) => self.failed(
                    in_context("create scratch working directory"@, cause@),
                ),
            },
            _ => self.at(RunWait::MakeScratch),
        }
    }

    /// The snapshot went on.
    #[verifier::opaque]
    pub open spec fn after_snapshot(self, backup: BackupState, reply: RunReply) -> RunState {
        match reply {
            RunReply::Snapshot(reply) => match backup.next(reply).stage {
                BackupWait::Done(Ok(_)) => self.at(
                    RunWait::Package(
                        create_start(self.work, self.archive_name(), self.snapshot(), self.source),
                    ),
                ),
                BackupWait::Done(Err(chain)) => self.failed(
                    in_context("online database backup failed"@, chain),
                ),
                _ => self.at(RunWait::Snapshot(backup.next(reply))),
            },
            _ => self.at(RunWait::Snapshot(backup)),
        }
    }

    /// The packaging went on.
    #[verifier::opaque]
    pub open spec fn after_package(self, create: CreateState, reply: RunReply) -> RunState {
        match reply {
            RunReply::Package(reply) => match create.next(reply).stage {
                CreateWait::Done(Ok(path)) => JobState { artifact: path, ..self }.at(
                    RunWait::DropSnapshot,
                ),
                CreateWait::Done(Err(chain)) => self.failed(chain),
                _ => self.at(RunWait::Package(create.next(reply))),
            },
            _ => self.at(RunWait::Package(create)),
        }
    }

    /// The snapshot was removed.
    #[verifier::opaque]
    pub open spec fn after_drop_snapshot(self, reply: RunReply) -> RunState {
        match reply {
            RunReply::Dropped => self.to_encryption(),
            _ => self.at(RunWait::DropSnapshot),
        }
    }

    /// The encryption went on.
    #[verifier::opaque]
    pub open spec fn after_encrypt(self, encrypt: EncryptState, reply: RunReply) -> RunState {
        match reply {
            RunReply::Encrypt(reply) => self.encrypting(encrypt.next(reply)),
            _ => self.at(RunWait::Encrypt(encrypt)),
        }
    }

    /// The delivery went on.
    #[verifier::opaque]
    pub open spec fn after_deliver(self, deliver: DeliverState, reply: RunReply) -> RunState {
        match reply {
            RunReply::Deliver(reply) => self.delivering(deliver.next(reply)),
            _ => self.at(RunWait::Deliver(deliver)),
        }
    }

    /// The upload went on.
    #[verifier::opaque]
    pub open spec fn after_upload(self, upload: UploadState, reply: RunReply) -> RunState {
        match reply {
            RunReply::Upload(reply) => if self.s3 is None {
                self.at(RunWait::Upload(upload))
            } else {
                self.uploading(upload.next(reply))
            },
            _ => self.at(RunWait::Upload(upload)),
        }
    }

    /// The clock was read once more, and the cleanup begins.
    #[verifier::opaque]
    pub open spec fn after_read_clock_again(self, reply: RunReply) -> RunState {
        match reply {
            RunReply::Clock(now) => self.to_cleanup(0, now@),
            _ => self.at(RunWait::ReadClockAgain),
        }
    }

    /// The cleanup of a target went on.
    #[verifier::opaque]
    pub open spec fn after_clean_target(
        self,
        i: int,
        cleanup: CleanupState,
        reply: RunReply,
    ) -> RunState {
        match reply {
            RunReply::CleanTarget(reply) => {
                let then = cleanup.next(reply);
                if i >= self.targets.len() {
                    self.at(RunWait::CleanTarget(i, cleanup))
                } else if then.stage is Done {
                    self.to_cleanup(i + 1, then.now)
                } else {
                    self.at(RunWait::CleanTarget(i, then))
                }
            },
            _ => self.at(RunWait::CleanTarget(i, cleanup)),
        }
    }

    /// The cleanup of the bucket went on.
    #[verifier::opaque]
    pub open spec fn after_clean_bucket(self, prune: PruneState, reply: RunReply) -> RunState {
        match reply {
            RunReply::CleanBucket(reply) => if prune.next(reply).stage is Done {
                self.over(Ok(self.report()))
            } else {
                self.at(RunWait::CleanBucket(prune.next(reply)))
            },
            _ => self.at(RunWait::CleanBucket(prune)),
        }
    }

    /// The scratch directory was removed.
    #[verifier::opaque]
    pub open spec fn after_drop_scratch(
        self,
        result: Result<Seq<Destination>, Seq<Seq<char>>>,
        reply: RunReply,
    ) -> RunState {
        match reply {
            RunReply::Dropped => self.at(RunWait::Done(result)),
            _ => self.at(RunWait::DropScratch(result)),
        }
    }
}

impl RunState {
    /// The run after the reply to what it waited for. Any other reply leaves it
    /// waiting.
    pub open spec fn next(self, reply: RunReply) -> RunState {
        match self.stage {
            RunWait::ListKeys => self.job.after_list_keys(reply),
            RunWait::ReadClock => self.job.after_read_clock(reply),
            RunWait::ResolveSource => self.job.after_resolve_source(reply),
            RunWait::ProbeSource => self.job.after_probe_source(reply),
            RunWait::ForeseeTarget(i, foresight) => self.job.after_foresee_target(
                i,
                foresight,
                reply,
            ),
            RunWait::CreateTarget(i) => self.job.after_create_target(i, reply),
            RunWait::ResolveTarget(i) => self.job.after_resolve_target(i, reply),
            RunWait::CheckTargets(taken) => self.job.after_check_targets(taken, reply),
            RunWait::RecheckTargets(taken) => self.job.after_recheck_targets(taken, reply),
            RunWait::Connect => self.job.after_connect(reply),
            RunWait::HeadObject => self.job.after_head_object(reply),
            RunWait::MakeScratch => self.job.after_make_scratch(reply),
            RunWait::Snapshot(backup) => self.job.after_snapshot(backup, reply),
            RunWait::Package(create) => self.job.after_package(create, reply),
            RunWait::DropSnapshot => self.job.after_drop_snapshot(reply),
            RunWait::Encrypt(encrypt) => self.job.after_encrypt(encrypt, reply),
            RunWait::Deliver(deliver) => self.job.after_deliver(deliver, reply),
            RunWait::Upload(upload) => self.job.after_upload(upload, reply),
            RunWait::ReadClockAgain => self.job.after_read_clock_again(reply),
            RunWait::CleanTarget(i, cleanup) => self.job.after_clean_target(i, cleanup, reply),
            RunWait::CleanBucket(prune) => self.job.after_clean_bucket(prune, reply),
            RunWait::DropScratch(result) => self.job.after_drop_scratch(result, reply),
            RunWait::Done(_) => self,
        }
    }
}

/// A run at its beginning.
pub open spec fn run_start(request: Request, process: nat) -> RunState {
    let job = JobState {
        request,
        process,
        stamp: Seq::empty(),
        source: Seq::empty(),
        dirs: Seq::empty(),
        s3: None,
        foreseen: Seq::empty(),
        targets: Seq::empty(),
        scratch: false,
        work: Seq::empty(),
        artifact: Seq::empty(),
        delivered: Seq::empty(),
        failures: Seq::empty(),
    };
    match request_problem(request) {
        Some(chain) => job.failed(chain),
        None => if request.recipients@.len() > 0 {
            job.at(RunWait::ListKeys)
        } else {
            job.at(RunWait::ReadClock)
        },
    }
}

fn nowhere() -> (r: FilePath)
    ensures
        r@ == Seq::<u8>::empty(),
{
    let bytes: Vec<u8> = Vec::new();
    assert(bytes@ == Seq::<u8>::empty());
    FilePath { bytes }
}

fn no_paths() -> (r: Vec<FilePath>)
    ensures
        paths(r@) == Seq::<Seq<u8>>::empty(),
{
    let list: Vec<FilePath> = Vec::new();
    assert(paths(list@) == Seq::<Seq<u8>>::empty());
    list
}

/// Begin a run, on behalf of the process `process`.
pub fn run(
    local_source: FilePath,
    targets: Vec<Target>,
    name: String,
    database_type: DatabaseType,
    encryption_type: EncryptionType,
    recipients: Vec<String>,
    retention_period: RetentionPeriod,
    process: u32,
) -> (r: Run)
    ensures
        r@ == run_start(
            (Request {
                local_source,
                targets,
                name,
                database_type,
                encryption_type,
                recipients,
                retention_period,
            }),
            process as nat,
        ),
{
    let request = Request {
        local_source,
        targets,
        name,
        database_type,
        encryption_type,
        recipients,
        retention_period,
    };
    let stage = match check_request(&request) {
        Err(failure) => RunStage::Done(Err(failure)),
        Ok(_) => if request.recipients.len() > 0 {
            RunStage::ListKeys
        } else {
            RunStage::ReadClock
        },
    };
    let failures: Vec<String> = Vec::new();
    assert(texts(failures@) == Seq::<Seq<char>>::empty());
    let stamp = String::new();
    assert(stamp@ == Seq::<char>::empty());
    let job = Job {
        request,
        process,
        stamp,
        source: nowhere(),
        dirs: no_paths(),
        s3: None,
        foreseen: no_paths(),
        targets: no_paths(),
        scratch: false,
        work: nowhere(),
        artifact: nowhere(),
        delivered: no_paths(),
        failures,
    };
    Run { job, stage }
}

impl Job {
    /// `<name>-<stamp>.tgz`.
    pub fn archive_name(&self) -> (r: String)
        ensures
            r@ == self@.archive_name(),
    {
        archive_name(self.request.name.as_str(), self.stamp.as_str())
    }

    /// The name of what is delivered.
    pub fn final_name(&self) -> (r: String)
        ensures
            r@ == self@.final_name(),
    {
        final_name(self.archive_name().as_str(), self.request.encryption_type)
    }

    /// Where the snapshot of the database goes.
    pub fn snapshot(&self) -> (r: FilePath)
        ensures
            r@ == self@.snapshot(),
    {
        let mut name = self.archive_name();
        name.append(".db-part");
        self.work.file(name.as_str())
    }

    /// The key of the artifact, given the S3 target.
    fn key(&self, s3: &S3Target) -> (r: String)
        requires
            self.s3 == Some(*s3),
        ensures
            r@ == self@.key(),
    {
        join_prefix(s3.prefix.as_str(), self.final_name().as_str())
    }

    /// The key of the artifact, where there is an S3 target.
    pub fn object_key(&self) -> (r: Option<String>)
        ensures
            match self.s3 {
                Some(_) => r is Some && r->0@ == self@.key(),
                None => r is None,
            },
    {
        match &self.s3 {
            Some(s3) => Some(self.key(s3)),
            None => None,
        }
    }

    /// The path of the artifact in the `i`-th foreseen target, where there is one.
    pub fn foreseen_place(&self, i: usize) -> (r: Option<FilePath>)
        ensures
            if i < self@.foreseen.len() {
                r is Some && r->0@ == child(
                    self@.foreseen[i as int],
                    encode_utf8(self@.final_name()),
                )
            } else {
                r is None
            },
    {
        if i < self.foreseen.len() {
            Some(self.foreseen[i].file(self.final_name().as_str()))
        } else {
            None
        }
    }

    /// The path of the artifact in the `i`-th target, where there is one.
    pub fn place(&self, i: usize) -> (r: Option<FilePath>)
        ensures
            if i < self@.targets.len() {
                r is Some && r->0@ == child(
                    self@.targets[i as int],
                    encode_utf8(self@.final_name()),
                )
            } else {
                r is None
            },
    {
        if i < self.targets.len() {
            Some(self.targets[i].file(self.final_name().as_str()))
        } else {
            None
        }
    }

    fn report(&self) -> (r: Vec<Delivered>)
        ensures
            destinations(r@) == self@.report(),
    {
        let ghost all = paths(self.delivered@);
        let ghost local = all.map_values(|path: Seq<u8>| Destination::Local(path));
        let mut list: Vec<Delivered> = Vec::new();
        assert(destinations(list@) == local.take(0));
        for i in 0..self.delivered.len()
            invariant
                all == paths(self.delivered@),
                local == all.map_values(|path: Seq<u8>| Destination::Local(path)),
                destinations(list@) == local.take(i as int),
        {
            let ghost before = destinations(list@);
            list.push(Delivered::Local(self.delivered[i].clone()));
            assert(all[i as int] == self.delivered@[i as int]@);
            assert(destinations(list@) == before.push(local[i as int]));
            assert(local.take(i + 1) == local.take(i as int).push(local[i as int]));
        }
        assert(local.take(local.len() as int) == local);
        match &self.s3 {
            Some(s3) => {
                let ghost before = destinations(list@);
                let object = Delivered::S3 { bucket: s3.bucket.clone(), key: self.key(s3) };
                list.push(object);
                assert(destinations(list@) == before.push(object@));
            },
            None => {},
        }
        list
    }

    fn at(self, stage: RunStage) -> (r: Run)
        ensures
            r@ == self@.at(stage@),
    {
        Run { job: self, stage }
    }

    fn over(self, result: Result<Vec<Delivered>, Failure>) -> (r: Run)
        ensures
            r@ == self@.over(outcome(result)),
    {
        if self.scratch {
            self.at(RunStage::DropScratch(result))
        } else {
            self.at(RunStage::Done(result))
        }
    }

    fn failed(self, failure: Failure) -> (r: Run)
        ensures
            r@ == self@.failed(failure@),
    {
        self.over(Err(failure))
    }

    fn to_foresight(self, i: usize) -> (r: Run)
        ensures
            r@ == self@.to_foresight(i as int),
    {
        if i < self.dirs.len() {
            assert(paths(self.dirs@)[i as int] == self.dirs@[i as int]@);
            let foresight = foresee(&self.dirs[i]);
            return self.at(RunStage::ForeseeTarget(i, foresight));
        }
        match check_nesting(&self.source, &self.foreseen) {
            Err(failure) => self.failed(failure),
            Ok(_) => {
                let taken: Vec<bool> = Vec::new();
                assert(taken@ == Seq::<bool>::empty());
                self.to_check(taken)
            },
        }
    }

    fn to_check(self, taken: Vec<bool>) -> (r: Run)
        ensures
            r@ == self@.to_check(taken@),
    {
        if taken.len() < self.foreseen.len() {
            return self.at(RunStage::CheckTargets(taken));
        }
        match ensure_targets_free(&self.foreseen, &taken, self.final_name().as_str()) {
            Err(failure) => self.failed(failure),
            Ok(_) => if self.s3.is_some() {
                self.at(RunStage::Connect)
            } else {
                self.to_target(0)
            },
        }
    }

    fn to_target(self, i: usize) -> (r: Run)
        ensures
            r@ == self@.to_target(i as int),
    {
        if i < self.dirs.len() {
            return self.at(RunStage::CreateTarget(i));
        }
        match check_nesting(&self.source, &self.targets) {
            Err(failure) => self.failed(failure),
            Ok(_) => {
                let taken: Vec<bool> = Vec::new();
                assert(taken@ == Seq::<bool>::empty());
                self.to_recheck(taken)
            },
        }
    }

    fn to_recheck(self, taken: Vec<bool>) -> (r: Run)
        ensures
            r@ == self@.to_recheck(taken@),
    {
        if taken.len() < self.targets.len() {
            return self.at(RunStage::RecheckTargets(taken));
        }
        match ensure_targets_free(&self.targets, &taken, self.final_name().as_str()) {
            Err(failure) => self.failed(failure),
            Ok(_) => self.at(RunStage::MakeScratch),
        }
    }

    fn to_encryption(self) -> (r: Run)
        ensures
            r@ == self@.to_encryption(),
    {
        match self.request.encryption_type {
            EncryptionType::Plaintext => self.to_delivery(),
            EncryptionType::Openpgp => {
                let started = encrypt(
                    self.artifact.clone(),
                    copy_texts(&self.request.recipients),
                );
                self.encrypting(started)
            },
        }
    }

    fn encrypting(self, encrypt: Encrypt) -> (r: Run)
        ensures
            r@ == self@.encrypting(encrypt@),
    {
        match encrypt.stage {
            EncryptStage::Done(Ok(path)) => {
                let mut job = self;
                job.artifact = path;
                job.to_delivery()
            },
            EncryptStage::Done(Err(failure)) => self.failed(failure),
            _ => self.at(RunStage::Encrypt(encrypt)),
        }
    }

    fn to_delivery(self) -> (r: Run)
        ensures
            r@ == self@.to_delivery(),
    {
        if self.targets.len() > 0 {
            let started = deliver(
                self.artifact.clone(),
                copy_paths(&self.targets),
                self.process,
            );
            self.delivering(started)
        } else {
            self.to_upload()
        }
    }

    fn delivering(self, deliver: Deliver) -> (r: Run)
        ensures
            r@ == self@.delivering(deliver@),
    {
        match deliver.stage {
            DeliverStage::Done(Ok(list)) => {
                let mut job = self;
                job.delivered = list;
                job.to_upload()
            },
            DeliverStage::Done(Err(failure)) => {
                let mut job = self;
                let ghost before = texts(job.failures@);
                let text = failure.headline();
                job.failures.push(text);
                assert(texts(job.failures@) == before.push(text@));
                job.to_upload()
            },
            _ => self.at(RunStage::Deliver(deliver)),
        }
    }

    fn to_upload(self) -> (r: Run)
        ensures
            r@ == self@.to_upload(),
    {
        let key = match &self.s3 {
            Some(s3) => Some(self.key(s3)),
            None => None,
        };
        match key {
            Some(key) => {
                let started = upload(self.artifact.clone(), key);
                self.at(RunStage::Upload(started))
            },
            None => self.to_verdict(),
        }
    }

    fn uploading(self, s3: &S3Target, upload: Upload) -> (r: Run)
        requires
            self.s3 == Some(*s3),
        ensures
            r@ == self@.uploading(upload@),
    {
        match upload.stage {
            UploadStage::Done(Ok(_)) => self.to_verdict(),
            UploadStage::Done(Err(failure)) => {
                let mut text = object_url_text(s3.bucket.as_str(), self.key(s3).as_str());
                text.append(": ");
                text.append(failure.full().as_str());
                let mut job = self;
                let ghost before = texts(job.failures@);
                job.failures.push(text);
                assert(texts(job.failures@) == before.push(text@));
                job.to_verdict()
            },
            _ => self.at(RunStage::Upload(upload)),
        }
    }

    fn to_verdict(self) -> (r: Run)
        ensures
            r@ == self@.to_verdict(),
    {
        if self.failures.len() == 0 {
            self.at(RunStage::ReadClockAgain)
        } else if self.failures.len() == 1 {
            assert(texts(self.failures@)[0] == self.failures@[0]@);
            let failure = Failure::new(self.failures[0].clone());
            self.failed(failure)
        } else {
            let total: u128 = if self.s3.is_some() {
                self.targets.len() as u128 + 1
            } else {
                self.targets.len() as u128
            };
            let message = failure_summary_text(&self.failures, total);
            self.failed(Failure::new(message))
        }
    }

    fn to_cleanup(self, i: usize, now: Moment) -> (r: Run)
        ensures
            r@ == self@.to_cleanup(i as int, now@),
    {
        let name = self.request.name.clone();
        let own_stamp = self.stamp.clone();
        let period = self.request.retention_period;
        if i < self.targets.len() {
            let cleanup = crate::deliver::cleanup_retention(
                self.targets[i].clone(),
                name,
                own_stamp,
                now,
                period,
            );
            return self.at(RunStage::CleanTarget(i, cleanup));
        }
        let place = match &self.s3 {
            Some(s3) => Some((s3.bucket.clone(), s3.prefix.clone())),
            None => None,
        };
        match place {
            Some((bucket, prefix)) => {
                let prune = crate::s3::cleanup_retention(
                    bucket,
                    prefix,
                    name,
                    own_stamp,
                    now,
                    period,
                );
                self.at(RunStage::CleanBucket(prune))
            },
            None => {
                let list = self.report();
                self.over(Ok(list))
            },
        }
    }
}

impl Job {
    fn after_list_keys(self, reply: RunReply) -> (r: Run)
        ensures
            r@ == self@.after_list_keys(reply),
    {
        proof {
            reveal(JobState::after_list_keys);
        }
        match reply {
            RunReply::Keys(listing) => match check_recipients(
                &self.request.recipients,
                &listing,
            ) {
                Err(failure) => self.failed(failure),
                Ok(_) => self.at(RunStage::ReadClock),
            },
            _ => self.at(RunStage::ListKeys),
        }
    }

    fn after_read_clock(self, reply: RunReply) -> (r: Run)
        ensures
            r@ == self@.after_read_clock(reply),
    {
        proof {
            reveal(JobState::after_read_clock);
        }
        match reply {
            RunReply::Clock(now) => {
                let mut job = self;
                job.stamp = stamp(&now);
                job.at(RunStage::ResolveSource)
            },
            _ => self.at(RunStage::ReadClock),
        }
    }

    fn after_resolve_source(self, reply: RunReply) -> (r: Run)
        ensures
            r@ == self@.after_resolve_source(reply),
    {
        proof {
            reveal(JobState::after_resolve_source);
        }
        match reply {
            RunReply::Resolved(result) => match result {
                Ok(path) => {
                    let mut job = self;
                    job.source = path;
                    job.at(RunStage::ProbeSource)
                },
                Err(cause) => {
                    let mut message = about("source directory '", &self.request.local_source);
                    message.append("' does not exist or is not accessible");
                    self.failed(cause.context(message))
                },
            },
            _ => self.at(RunStage::ResolveSource),
        }
    }

    fn after_probe_source(self, reply: RunReply) -> (r: Run)
        ensures
            r@ == self@.after_probe_source(reply),
    {
        proof {
            reveal(JobState::after_probe_source);
        }
        match reply {
            RunReply::Is(directory) => {
                if !directory {
                    let mut message = about("source '", &self.source);
                    message.append("' is not a directory");
                    return self.failed(Failure::new(message));
                }
                match split_targets(&self.request.targets) {
                    Err(failure) => self.failed(failure),
                    Ok((dirs, s3)) => {
                        let mut job = self;
                        job.dirs = dirs;
                        job.s3 = s3;
                        job.to_foresight(0)
                    },
                }
            },
            _ => self.at(RunStage::ProbeSource),
        }
    }

    fn after_foresee_target(self, i: usize, foresight: Foresight, reply: RunReply) -> (r: Run)
        ensures
            r@ == self@.after_foresee_target(i as int, foresight@, reply),
    {
        proof {
            reveal(JobState::after_foresee_target);
        }
        match reply {
            RunReply::Foreseen(reply) => {
                if i >= self.dirs.len() {
                    return self.at(RunStage::ForeseeTarget(i, foresight));
                }
                let foresight = foresight.resume(reply);
                match foresight.stage {
                    ForeseeStage::Done(Ok(path)) => {
                        let mut job = self;
                        add_place(&mut job.foreseen, path);
                        job.to_foresight(i + 1)
                    },
                    ForeseeStage::Done(Err(cause)) => {
                        let message = about("create target directory ", &self.dirs[i]);
                        self.failed(cause.context(message))
                    },
                    _ => self.at(RunStage::ForeseeTarget(i, foresight)),
                }
            },
            _ => self.at(RunStage::ForeseeTarget(i, foresight)),
        }
    }

    fn after_recheck_targets(self, taken: Vec<bool>, reply: RunReply) -> (r: Run)
        ensures
            r@ == self@.after_recheck_targets(taken@, reply),
    {
        proof {
            reveal(JobState::after_recheck_targets);
        }
        match reply {
            RunReply::Is(found) => {
                let mut taken = taken;
                taken.push(found);
                self.to_recheck(taken)
            },
            _ => self.at(RunStage::RecheckTargets(taken)),
        }
    }

    fn after_create_target(self, i: usize, reply: RunReply) -> (r: Run)
        ensures
            r@ == self@.after_create_target(i as int, reply),
    {
        proof {
            reveal(JobState::after_create_target);
        }
        match reply {
            RunReply::Did(result) => {
                if i >= self.dirs.len() {
                    return self.at(RunStage::CreateTarget(i));
                }
                match result {
                    Ok(_) => self.at(RunStage::ResolveTarget(i)),
                    Err(cause) => {
                        let message = about("create target directory ", &self.dirs[i]);
                        self.failed(cause.context(message))
                    },
                }
            },
            _ => self.at(RunStage::CreateTarget(i)),
        }
    }

    fn after_resolve_target(self, i: usize, reply: RunReply) -> (r: Run)
        ensures
            r@ == self@.after_resolve_target(i as int, reply),
    {
        proof {
            reveal(JobState::after_resolve_target);
        }
        match reply {
            RunReply::Resolved(result) => {
                if i >= self.dirs.len() {
                    return self.at(RunStage::ResolveTarget(i));
                }
                match result {
                    Ok(path) => {
                        let mut job = self;
                        add_place(&mut job.targets, path);
                        job.to_target(i + 1)
                    },
                    Err(cause) => {
                        let message = about("canonicalize target directory ", &self.dirs[i]);
                        self.failed(cause.context(message))
                    },
                }
            },
            _ => self.at(RunStage::ResolveTarget(i)),
        }
    }

    fn after_check_targets(self, taken: Vec<bool>, reply: RunReply) -> (r: Run)
        ensures
            r@ == self@.after_check_targets(taken@, reply),
    {
        proof {
            reveal(JobState::after_check_targets);
        }
        match reply {
            RunReply::Is(found) => {
                let mut taken = taken;
                taken.push(found);
                self.to_check(taken)
            },
            _ => self.at(RunStage::CheckTargets(taken)),
        }
    }

    fn after_connect(self, reply: RunReply) -> (r: Run)
        ensures
            r@ == self@.after_connect(reply),
    {
        proof {
            reveal(JobState::after_connect);
        }
        match reply {
            RunReply::Did(result) => {
                let failure = match (&self.s3, result) {
                    (None, _) => {
                        return self.at(RunStage::Connect);
                    },
                    (Some(_), Ok(_)) => None,
                    (Some(s3), Err(cause)) => Some(client_failure(s3, cause)),
                };
                match failure {
                    Some(failure) => self.failed(failure),
                    None => self.at(RunStage::HeadObject),
                }
            },
            _ => self.at(RunStage::Connect),
        }
    }

    fn after_head_object(self, reply: RunReply) -> (r: Run)
        ensures
            r@ == self@.after_head_object(reply),
    {
        proof {
            reveal(JobState::after_head_object);
        }
        match reply {
            RunReply::Head(head) => match self.object_key() {
                None => self.at(RunStage::HeadObject),
                Some(key) => match ensure_object_free(head, key.as_str()) {
                    Err(failure) => self.failed(failure),
                    Ok(_) => self.to_target(0),
                },
            },
            _ => self.at(RunStage::HeadObject),
        }
    }

    fn after_make_scratch(self, reply: RunReply) -> (r: Run)
        ensures
            r@ == self@.after_make_scratch(reply),
    {
        proof {
            reveal(JobState::after_make_scratch);
        }
        match reply {
            RunReply::Scratch(result) => match result {
                Ok(path) => {
                    let mut job = self;
                    job.scratch = true;
                    job.work = path;
                    let started = backup(
                        job.request.database_type,
                        job.source.clone(),
                        job.snapshot(),
                    );
                    job.at(RunStage::Snapshot(started))
                },
                Err(cause) => self.failed(
                    cause.context("create scratch working directory".to_string()),
                ),
            },
            _ => self.at(RunStage::MakeScratch),
        }
    }

    fn after_snapshot(self, backup: Backup, reply: RunReply) -> (r: Run)
        ensures
            r@ == self@.after_snapshot(backup@, reply),
    {
        proof {
            reveal(JobState::after_snapshot);
        }
        match reply {
            RunReply::Snapshot(reply) => {
                let backup = backup.resume(reply);
                match backup.stage {
                    BackupStage::Done(Ok(_)) => {
                        let started = create(
                            self.work.clone(),
                            self.archive_name(),
                            self.snapshot(),
                            self.source.clone(),
                        );
                        self.at(RunStage::Package(started))
                    },
                    BackupStage::Done(Err(failure)) => self.failed(
                        failure.context("online database backup failed".to_string()),
                    ),
                    _ => self.at(RunStage::Snapshot(backup)),
                }
            },
            _ => self.at(RunStage::Snapshot(backup)),
        }
    }

    fn after_package(self, create: Create, reply: RunReply) -> (r: Run)
        ensures
            r@ == self@.after_package(create@, reply),
    {
        proof {
            reveal(JobState::after_package);
        }
        match reply {
            RunReply::Package(reply) => {
                let create = create.resume(reply);
                match create.stage {
                    CreateStage::Done(Ok(path)) => {
                        let mut job = self;
                        job.artifact = path;
                        job.at(RunStage::DropSnapshot)
                    },
                    CreateStage::Done(Err(failure)) => self.failed(failure),
                    _ => self.at(RunStage::Package(create)),
                }
            },
            _ => self.at(RunStage::Package(create)),
        }
    }

    fn after_drop_snapshot(self, reply: RunReply) -> (r: Run)
        ensures
            r@ == self@.after_drop_snapshot(reply),
    {
        proof {
            reveal(JobState::after_drop_snapshot);
        }
        match reply {
            RunReply::Dropped => self.to_encryption(),
            _ => self.at(RunStage::DropSnapshot),
        }
    }

    fn after_encrypt(self, encrypt: Encrypt, reply: RunReply) -> (r: Run)
        ensures
            r@ == self@.after_encrypt(encrypt@, reply),
    {
        proof {
            reveal(JobState::after_encrypt);
        }
        match reply {
            RunReply::Encrypt(reply) => self.encrypting(
                encrypt.resume(reply),
            ),
            _ => self.at(RunStage::Encrypt(encrypt)),
        }
    }

    fn after_deliver(self, deliver: Deliver, reply: RunReply) -> (r: Run)
        ensures
            r@ == self@.after_deliver(deliver@, reply),
    {
        proof {
            reveal(JobState::after_deliver);
        }
        match reply {
            RunReply::Deliver(reply) => self.delivering(
                deliver.resume(reply),
            ),
            _ => self.at(RunStage::Deliver(deliver)),
        }
    }

    fn after_upload(self, upload: Upload, reply: RunReply) -> (r: Run)
        ensures
            r@ == self@.after_upload(upload@, reply),
    {
        proof {
            reveal(JobState::after_upload);
        }
        match reply {
            RunReply::Upload(reply) => {
                let s3 = match &self.s3 {
                    Some(s3) => s3.clone(),
                    None => {
                        return self.at(RunStage::Upload(upload));
                    },
                };
                self.uploading(&s3, upload.resume(reply))
            },
            _ => self.at(RunStage::Upload(upload)),
        }
    }

    fn after_read_clock_again(self, reply: RunReply) -> (r: Run)
        ensures
            r@ == self@.after_read_clock_again(reply),
    {
        proof {
            reveal(JobState::after_read_clock_again);
        }
        match reply {
            RunReply::Clock(now) => self.to_cleanup(0, now),
            _ => self.at(RunStage::ReadClockAgain),
        }
    }

    fn after_clean_target(self, i: usize, cleanup: Cleanup, reply: RunReply) -> (r: Run)
        ensures
            r@ == self@.after_clean_target(i as int, cleanup@, reply),
    {
        proof {
            reveal(JobState::after_clean_target);
        }
        match reply {
            RunReply::CleanTarget(reply) => {
                if i >= self.targets.len() {
                    return self.at(RunStage::CleanTarget(i, cleanup));
                }
                let cleanup = cleanup.resume(reply);
                match cleanup.stage {
                    CleanupStage::Done => self.to_cleanup(i + 1, cleanup.now),
                    _ => self.at(RunStage::CleanTarget(i, cleanup)),
                }
            },
            _ => self.at(RunStage::CleanTarget(i, cleanup)),
        }
    }

    fn after_clean_bucket(self, prune: Prune, reply: RunReply) -> (r: Run)
        ensures
            r@ == self@.after_clean_bucket(prune@, reply),
    {
        proof {
            reveal(JobState::after_clean_bucket);
        }
        match reply {
            RunReply::CleanBucket(reply) => {
                let prune = prune.resume(reply);
                match prune.stage {
                    PruneStage::Done => {
                        let list = self.report();
                        self.over(Ok(list))
                    },
                    _ => self.at(RunStage::CleanBucket(prune)),
                }
            },
            _ => self.at(RunStage::CleanBucket(prune)),
        }
    }

    fn after_drop_scratch(
        self,
        result: Result<Vec<Delivered>, Failure>,
        reply: RunReply,
    ) -> (r: Run)
        ensures
            r@ == self@.after_drop_scratch(outcome(result), reply),
    {
        proof {
            reveal(JobState::after_drop_scratch);
        }
        match reply {
            RunReply::Dropped => self.at(RunStage::Done(result)),
            _ => self.at(RunStage::DropScratch(result)),
        }
    }
}

impl Run {
    /// Take the reply to what the run waited for.
    pub fn resume(self, reply: RunReply) -> (r: Run)
        ensures
            r@ == self@.next(reply),
    {
        let Run { job, stage } = self;
        match stage {
            RunStage::ListKeys => job.after_list_keys(reply),
            RunStage::ReadClock => job.after_read_clock(reply),
            RunStage::ResolveSource => job.after_resolve_source(reply),
            RunStage::ProbeSource => job.after_probe_source(reply),
            RunStage::ForeseeTarget(i, foresight) => job.after_foresee_target(i, foresight, reply),
            RunStage::CreateTarget(i) => job.after_create_target(i, reply),
            RunStage::ResolveTarget(i) => job.after_resolve_target(i, reply),
            RunStage::CheckTargets(taken) => job.after_check_targets(taken, reply),
            RunStage::RecheckTargets(taken) => job.after_recheck_targets(taken, reply),
            RunStage::Connect => job.after_connect(reply),
            RunStage::HeadObject => job.after_head_object(reply),
            RunStage::MakeScratch => job.after_make_scratch(reply),
            RunStage::Snapshot(backup) => job.after_snapshot(backup, reply),
            RunStage::Package(create) => job.after_package(create, reply),
            RunStage::DropSnapshot => job.after_drop_snapshot(reply),
            RunStage::Encrypt(encrypt) => job.after_encrypt(encrypt, reply),
            RunStage::Deliver(deliver) => job.after_deliver(deliver, reply),
            RunStage::Upload(upload) => job.after_upload(upload, reply),
            RunStage::ReadClockAgain => job.after_read_clock_again(reply),
            RunStage::CleanTarget(i, cleanup) => job.after_clean_target(i, cleanup, reply),
            RunStage::CleanBucket(prune) => job.after_clean_bucket(prune, reply),
            RunStage::DropScratch(result) => job.after_drop_scratch(result, reply),
            RunStage::Done(result) => job.at(RunStage::Done(result)),
        }
    }
}

/// A run encrypts exactly if it has recipients to encrypt for: plaintext goes with
/// none, and encryption with one or more.
pub proof fn law_modes_and_recipients_agree(encryption: EncryptionType, recipients: nat)
    ensures
        mode_problem(encryption, recipients) is None <==> (encryption is Openpgp <==> recipients
            > 0),
{
}

/// A request is accepted exactly if its name is, its mode and recipients agree, it
/// has a target, and each of its recipients, however many, is a full fingerprint.
pub proof fn law_requests_are_accepted_exactly(request: Request)
    ensures
        request_problem(request) is None <==> {
            &&& name_problem(request.name@) is None
            &&& request.encryption_type is Openpgp <==> request.recipients@.len() > 0
            &&& request.targets@.len() > 0
            &&& forall|i: int|
                0 <= i < request.recipients@.len() ==> is_fingerprint(
                    (#[trigger] request.recipients@[i])@,
                )
        },
{
    let list = texts(request.recipients@);
    let bad = |r: Seq<char>| !is_fingerprint(r);
    lemma_first_index_is_first(list, bad);
    let b = first_index(list, bad);
    assert forall|i: int| 0 <= i < list.len() implies list[i]
        == #[trigger] request.recipients@[i]@ by {}
    if b < list.len() {
        assert(bad(list[b]));
        assert(!is_fingerprint(request.recipients@[b]@));
    } else {
        assert forall|i: int| 0 <= i < request.recipients@.len() implies is_fingerprint(
            (#[trigger] request.recipients@[i])@,
        ) by {
            assert(!bad(list[i]));
        }
    }
}

/// Targets are parted one by one: the local directories and the S3 targets of two
/// lists together are those of the one and then those of the other, and each target
/// is either a directory or in the object store.
pub proof fn law_targets_are_parted_one_by_one(some: Seq<Target>, more: Seq<Target>, target: Target)
    ensures
        local_dirs(some + more) == local_dirs(some) + local_dirs(more),
        s3_targets(some + more) == s3_targets(some) + s3_targets(more),
        target matches Target::Local { dir } ==> local_dirs(seq![target]) == seq![dir@]
            && s3_targets(seq![target]) == Seq::<S3Target>::empty(),
        target matches Target::S3(s3) ==> local_dirs(seq![target]) == Seq::<Seq<u8>>::empty()
            && s3_targets(seq![target]) == seq![s3],
        s3_targets(some).len() > 0 ==> s3_target(some) == Some(s3_targets(some)[0]),
        s3_targets(some).len() == 0 ==> s3_target(some) is None,
    decreases more.len(),
{
    let one = seq![target];
    assert(one.drop_last() == Seq::<Target>::empty());
    assert(local_dirs(one.drop_last()) == Seq::<Seq<u8>>::empty());
    assert(s3_targets(one.drop_last()) == Seq::<S3Target>::empty());
    if more.len() == 0 {
        assert(some + more == some);
    } else {
        assert((some + more).drop_last() == some + more.drop_last());
        law_targets_are_parted_one_by_one(some, more.drop_last(), target);
    }
}

/// Targets can be used with a source exactly if none of them, however many, lies
/// within it or has it within itself; being the same is both.
pub proof fn law_targets_in_the_way_are_refused(source: Seq<u8>, targets: Seq<Seq<u8>>)
    ensures
        nesting_problem(source, targets) is None <==> forall|i: int|
            0 <= i < targets.len() ==> !lies_within(#[trigger] targets[i], source) && !lies_within(
                source,
                targets[i],
            ),
{
    let bad = |target: Seq<u8>| clashes(source, target);
    lemma_first_index_is_first(targets, bad);
    let b = first_index(targets, bad);
    if b < targets.len() {
        assert(bad(targets[b]));
        law_within_means_beginning_with_the_same_names(targets[b], source);
    } else {
        assert forall|i: int| 0 <= i < targets.len() implies !lies_within(
            #[trigger] targets[i],
            source,
        ) && !lies_within(source, targets[i]) by {
            assert(!bad(targets[i]));
        }
    }
}

/// A place is added behind the others, unless one of them spells the same place:
/// those stay as they are either way.
pub proof fn law_places_are_added_once(targets: Seq<Seq<u8>>, dir: Seq<u8>, i: int)
    ensures
        0 <= i < targets.len() && same_place(targets[i], dir) ==> with_place(targets, dir)
            == targets,
        (forall|j: int| 0 <= j < targets.len() ==> !same_place(#[trigger] targets[j], dir))
            ==> with_place(targets, dir) == targets.push(dir),
{
}

/// What a run makes is called by its name and its stamp: the archive, what is
/// delivered, the snapshot in the scratch directory, and the object below the
/// prefix.
pub proof fn law_files_of_a_run_bear_its_name(job: JobState)
    ensures
        ({
            let archive = job.request.name@ + seq!['-'] + job.stamp + seq!['.', 't', 'g', 'z'];
            let artifact = match job.request.encryption_type {
                EncryptionType::Plaintext => archive,
                EncryptionType::Openpgp => archive + seq!['.', 'g', 'p', 'g'],
            };
            &&& job.archive_name() == archive
            &&& job.final_name() == artifact
            &&& job.snapshot() == child(
                job.work,
                encode_utf8(archive + seq!['.', 'd', 'b', '-', 'p', 'a', 'r', 't']),
            )
            &&& job.s3 matches Some(s3) ==> job.key() == key_of(s3.prefix@, artifact)
        }),
{
    law_files_are_called_by_name_and_stamp(job.request.name@, job.stamp, 0);
    reveal_strlit(".db-part");
    assert(".db-part"@ == seq!['.', 'd', 'b', '-', 'p', 'a', 'r', 't']);
}

/// A report lists every local copy, in order, and the object behind them where
/// there is one.
pub proof fn law_reports_list_every_copy(job: JobState, i: int)
    ensures
        0 <= i < job.delivered.len() ==> job.report()[i] == Destination::Local(job.delivered[i]),
        job.s3 is None ==> job.report().len() == job.delivered.len(),
        job.s3 matches Some(s3) ==> {
            &&& job.report().len() == job.delivered.len() + 1
            &&& job.report().last() == Destination::S3 { bucket: s3.bucket@, key: job.key() }
        },
{
}

/// A run begins with its request as it is and nothing done; an accepted one lists
/// the keyring first exactly if it has recipients.
pub proof fn law_runs_begin_as_asked(request: Request, process: nat)
    ensures
        ({
            let start = run_start(request, process);
            let job = start.job;
            &&& job.request == request && job.process == process
            &&& job.dirs.len() == 0 && job.foreseen.len() == 0 && job.targets.len() == 0
            &&& job.delivered.len() == 0 && job.failures.len() == 0
            &&& !job.scratch && job.s3 is None
            &&& request_problem(request) is None && request.recipients@.len() > 0
                ==> start.stage is ListKeys
            &&& request_problem(request) is None && request.recipients@.len() == 0
                ==> start.stage is ReadClock
            &&& request_problem(request) matches Some(chain) ==> start.stage == RunWait::Done(
                Err::<Seq<Destination>, Seq<Seq<char>>>(chain),
            )
        }),
{
}

/// Of the targets that are in the source's way, the first is named, and it is told
/// whether it is the source itself or nested with it.
pub proof fn law_the_first_clash_is_named(source: Seq<u8>, targets: Seq<Seq<u8>>, i: int)
    requires
        0 <= i < targets.len(),
        lies_within(targets[i], source) || lies_within(source, targets[i]),
        forall|j: int|
            0 <= j < i ==> !lies_within(#[trigger] targets[j], source) && !lies_within(
                source,
                targets[j],
            ),
    ensures
        lies_within(targets[i], source) && lies_within(source, targets[i]) ==> nesting_problem(
            source,
            targets,
        ) == Some(
            seq![
                "source and target must be different directories ("@ + shown(targets[i]) + ")"@,
            ],
        ),
        !(lies_within(targets[i], source) && lies_within(source, targets[i])) ==> nesting_problem(
            source,
            targets,
        ) == Some(seq!["source and target must not be nested ("@ + shown(targets[i]) + ")"@]),
{
    let bad = |target: Seq<u8>| clashes(source, target);
    law_within_means_beginning_with_the_same_names(targets[i], source);
    assert forall|j: int| 0 <= j < i implies !bad(#[trigger] targets[j]) by {
        law_within_means_beginning_with_the_same_names(targets[j], source);
    }
    lemma_first_index(targets, bad, i);
}

} // verus!
