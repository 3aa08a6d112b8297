//! What a run promises, whatever it is replied.

use vstd::prelude::*;
use vstd::utf8::encode_utf8;

use crate::archive::{create_after, create_start, CreateReply, CreateState, CreateWait};
use crate::calendar::{in_range, lemma_stamp_characters, stamp_text, Moment};
use crate::config::{Destination, EncryptionType};
use crate::crypto::{
    encrypt_after, encrypt_start, recipients_problem, EncryptReply, EncryptState, EncryptWait,
    Listing,
};
use crate::db::{backup_after, backup_start, BackupReply, BackupState, BackupWait};
use crate::deliver::{
    cleanup_after, cleanup_start, collision_problem, collisions, deliver_after, deliver_start,
    delivery_sound, failure_summary, law_collisions_are_told_exactly, lemma_cleanup_keeps,
    lemma_deliver_start, lemma_deliver_step, places, CleanupReply, CleanupState, DeliverReply,
    DeliverState, DeliverWait,
};
use crate::failure::{headline_of, tells, Failure};
use crate::foresee::{
    foresight_after, foresight_start, ForeseeWait, ForesightState, Resolution,
};
use crate::naming::{archive_name_text, final_name_text, name_problem};
use crate::path::{
    child, file_name_of, lemma_child, lemma_encoding_is_no_shorter, lemma_no_separator, lemma_shown,
    parent_of, same_place, shown, tidy_end, FilePath,
};
use crate::run::{
    holds_place, law_targets_in_the_way_are_refused, local_dirs, nesting_problem, request_problem,
    run_start, s3_target, s3_targets, with_place, JobState, Request, RunReply, RunState, RunWait,
};
use crate::s3::{
    key_of, prune_after, prune_start, upload_after, upload_start, Head, PruneReply, PruneState,
    UploadReply, UploadState, UploadWait,
};
use crate::text::{joined, texts};
use crate::trace::{after, happened, lemma_happened, lemma_happened_lately, lemma_nothing_happened};

verus! {

/// A run from `start` after `replies`.
pub open spec fn run_after(start: RunState, replies: Seq<RunReply>) -> RunState {
    after(start, |state: RunState, reply: RunReply| state.next(reply), replies)
}

/// Whether it happened in the course of `replies`.
pub open spec fn run_happened(
    start: RunState,
    replies: Seq<RunReply>,
    what: spec_fn(RunState, RunReply) -> bool,
) -> bool {
    happened(start, |state: RunState, reply: RunReply| state.next(reply), replies, what)
}

/// Whether every clock that was read told a moment that the calendar knows, as
/// every `Moment` does.
pub open spec fn clocks_are_valid(replies: Seq<RunReply>) -> bool {
    forall|i: int|
        0 <= i < replies.len() ==> (#[trigger] replies[i] matches RunReply::Clock(now) ==> in_range(
            now@,
        ))
}

/// How far a run has come on its way to success.
pub open spec fn progress(stage: RunWait) -> int {
    match stage {
        RunWait::ListKeys => 0,
        RunWait::ReadClock => 1,
        RunWait::ResolveSource => 2,
        RunWait::ProbeSource => 2,
        RunWait::ForeseeTarget(_, _) => 3,
        RunWait::CheckTargets(_) => 4,
        RunWait::Connect => 5,
        RunWait::HeadObject => 5,
        RunWait::CreateTarget(_) => 6,
        RunWait::ResolveTarget(_) => 6,
        RunWait::RecheckTargets(_) => 7,
        RunWait::MakeScratch => 8,
        RunWait::Snapshot(_) => 9,
        RunWait::Package(_) => 10,
        RunWait::DropSnapshot => 11,
        RunWait::Encrypt(_) => 12,
        RunWait::Deliver(_) => 13,
        RunWait::Upload(_) => 14,
        RunWait::ReadClockAgain => 15,
        RunWait::CleanTarget(_, _) => 16,
        RunWait::CleanBucket(_) => 17,
        RunWait::DropScratch(Ok(_)) => 18,
        RunWait::Done(Ok(_)) => 19,
        RunWait::DropScratch(Err(_)) => -1,
        RunWait::Done(Err(_)) => -1,
    }
}

/// Whether a run has passed every check, and works.
pub open spec fn works(stage: RunWait) -> bool {
    progress(stage) >= 8
}

/// Whether a run cleans up.
pub open spec fn cleans(stage: RunWait) -> bool {
    stage is CleanTarget || stage is CleanBucket
}

pub open spec fn is_stamp(text: Seq<char>) -> bool {
    exists|nanos: int| in_range(nanos) && text == #[trigger] stamp_text(nanos)
}

/// Whether no two of `targets` spell the same place.
pub open spec fn all_distinct(targets: Seq<Seq<u8>>) -> bool {
    forall|i: int, j: int|
        0 <= i < j < targets.len() ==> !same_place(#[trigger] targets[i], #[trigger] targets[j])
}

/// Where the artifact lies when it is delivered.
pub open spec fn artifact_path(job: JobState) -> Seq<u8> {
    match job.request.encryption_type {
        EncryptionType::Plaintext => child(job.work, encode_utf8(job.final_name())),
        EncryptionType::Openpgp => child(tidy_end(job.work), encode_utf8(job.final_name())),
    }
}

/// What holds of a run's knowledge once it has come so far.
spec fn job_sound(request: Request, process: nat, job: JobState, far: int) -> bool {
    &&& job.request == request && job.process == process
    &&& all_distinct(job.targets)
    &&& far >= 0 ==> request_problem(request) is None
    &&& far >= 2 ==> is_stamp(job.stamp)
    &&& 0 <= far < 3 ==> job.foreseen.len() == 0
    &&& 0 <= far < 6 ==> job.targets.len() == 0
    &&& far >= 3 ==> {
        &&& s3_targets(request.targets@).len() <= 1
        &&& job.dirs == local_dirs(request.targets@)
        &&& job.s3 == s3_target(request.targets@)
    }
    &&& far >= 4 ==> nesting_problem(job.source, job.foreseen) is None
    &&& far >= 7 ==> nesting_problem(job.source, job.targets) is None
    &&& 0 <= far <= 8 ==> !job.scratch
    &&& far >= 9 ==> job.scratch
    &&& 0 <= far <= 13 ==> job.failures.len() == 0 && job.delivered.len() == 0
    &&& 11 <= far <= 12 ==> job.artifact == child(job.work, encode_utf8(job.archive_name()))
    &&& far >= 13 ==> job.artifact == artifact_path(job)
    &&& far >= 14 && job.failures.len() == 0 ==> job.delivered == places(
        job.targets,
        job.final_name(),
    )
    &&& far >= 15 ==> job.failures.len() == 0
}

/// What holds of what a run waits for.
spec fn stage_sound(job: JobState, stage: RunWait) -> bool {
    match stage {
        RunWait::ForeseeTarget(i, _) => 0 <= i < job.dirs.len(),
        RunWait::CheckTargets(taken) => taken.len() < job.foreseen.len(),
        RunWait::CreateTarget(i) => 0 <= i < job.dirs.len(),
        RunWait::ResolveTarget(i) => 0 <= i < job.dirs.len(),
        RunWait::RecheckTargets(taken) => taken.len() < job.targets.len(),
        RunWait::Connect => job.s3 is Some,
        RunWait::HeadObject => job.s3 is Some,
        RunWait::Snapshot(backup) => backup.source == job.source && backup.snapshot
            == job.snapshot(),
        RunWait::Package(create) => {
            &&& create.workdir == job.work
            &&& create.archive_name == job.archive_name()
            &&& create.snapshot == job.snapshot()
            &&& create.source == job.source
            &&& !(create.stage is Done)
        },
        RunWait::Encrypt(encrypt) => {
            &&& job.request.encryption_type is Openpgp
            &&& encrypt.plain == job.artifact
            &&& encrypt.recipients == texts(job.request.recipients@)
            &&& encrypt.complete == artifact_path(job)
            &&& !(encrypt.stage is Done)
        },
        RunWait::Deliver(deliver) => {
            let start = deliver_start(job.artifact, job.targets, job.process);
            &&& job.targets.len() > 0
            &&& delivery_sound(start, deliver)
            &&& !(deliver.stage is Done)
        },
        RunWait::Upload(upload) => {
            &&& job.s3 is Some
            &&& upload.artifact == job.artifact
            &&& upload.key == job.key()
        },
        RunWait::CleanTarget(i, cleanup) => {
            &&& 0 <= i < job.targets.len()
            &&& cleanup.dir == job.targets[i]
            &&& cleanup.name == job.request.name@
            &&& cleanup.own_stamp == job.stamp
            &&& cleanup.period == job.request.retention_period
        },
        RunWait::CleanBucket(prune) => {
            &&& job.s3 is Some
            &&& prune.bucket == job.s3->0.bucket@
            &&& prune.prefix == job.s3->0.prefix@
            &&& prune.name == job.request.name@
            &&& prune.own_stamp == job.stamp
            &&& prune.period == job.request.retention_period
        },
        RunWait::DropScratch(result) => {
            &&& job.scratch
            &&& result matches Ok(list) ==> list == job.report()
        },
        RunWait::Done(Ok(list)) => list == job.report(),
        _ => true,
    }
}

/// What holds of a run at every moment.
spec fn run_sound(request: Request, process: nat, state: RunState) -> bool {
    job_sound(request, process, state.job, progress(state.stage)) && stage_sound(
        state.job,
        state.stage,
    )
}

/// A file name that a text without slash and of some length gives is found again
/// in a path.
proof fn lemma_named(dir: Seq<u8>, name: Seq<char>)
    requires
        !name.contains('/'),
        name.len() > 2,
    ensures
        file_name_of(child(dir, encode_utf8(name))) == Some(encode_utf8(name)),
        parent_of(child(dir, encode_utf8(name))) == Some(tidy_end(dir)),
        shown(encode_utf8(name)) == name,
{
    lemma_encoding_is_no_shorter(name);
    lemma_no_separator(name);
    lemma_child(dir, encode_utf8(name));
    lemma_shown(name);
}

/// The names of archive and artifact are plain file names.
proof fn lemma_names_are_plain(name: Seq<char>, stamp: Seq<char>, encryption: EncryptionType)
    requires
        name_problem(name) is None,
        is_stamp(stamp),
    ensures
        ({
            let archive = archive_name_text(name, stamp);
            let artifact = final_name_text(archive, encryption);
            &&& !archive.contains('/') && archive.len() > 2
            &&& !artifact.contains('/') && artifact.len() > 2
        }),
{
    reveal_strlit("-");
    reveal_strlit(".tgz");
    reveal_strlit(".gpg");
    let nanos = choose|nanos: int| in_range(nanos) && stamp == #[trigger] stamp_text(nanos);
    lemma_stamp_characters(nanos);
    let archive = archive_name_text(name, stamp);
    let artifact = final_name_text(archive, encryption);
    if archive.contains('/') {
        let k = choose|k: int| 0 <= k < archive.len() && archive[k] == '/';
        if k < name.len() {
            assert(name[k] == '/');
        } else if k > name.len() && k < name.len() + 1 + stamp.len() {
            assert(stamp[k - name.len() - 1] == '/');
        }
        assert(false);
    }
    if artifact.contains('/') {
        let k = choose|k: int| 0 <= k < artifact.len() && artifact[k] == '/';
        if k < archive.len() {
            assert(archive[k] == '/');
        }
        assert(false);
    }
}

proof fn lemma_to_cleanup(request: Request, process: nat, job: JobState, i: int, now: int)
    requires
        job_sound(request, process, job, 15),
        0 <= i,
    ensures
        run_sound(request, process, job.to_cleanup(i, now)),
        job.to_cleanup(i, now).job == job,
        progress(job.to_cleanup(i, now).stage) >= 16,
{
}

proof fn lemma_to_verdict(request: Request, process: nat, job: JobState)
    requires
        job_sound(request, process, job, 14),
    ensures
        run_sound(request, process, job.to_verdict()),
        job.to_verdict().job == job,
        job.to_verdict().stage is ReadClockAgain <==> job.failures.len() == 0,
        !(job.to_verdict().stage is ReadClockAgain) ==> progress(job.to_verdict().stage) == -1,
{
}

proof fn lemma_to_upload(request: Request, process: nat, job: JobState)
    requires
        job_sound(request, process, job, 14),
    ensures
        run_sound(request, process, job.to_upload()),
        job.to_upload().job == job,
        job.s3 is Some ==> job.to_upload().stage is Upload,
        job.s3 is None ==> job.to_upload() == job.to_verdict(),
{
    lemma_to_verdict(request, process, job);
}

/// A delivery that is over has served every target under the artifact's name, or
/// has failed.
proof fn lemma_delivering(request: Request, process: nat, job: JobState, deliver: DeliverState)
    requires
        job_sound(request, process, job, 13),
        job.targets.len() > 0,
        delivery_sound(deliver_start(job.artifact, job.targets, job.process), deliver),
        file_name_of(job.artifact) == Some(encode_utf8(job.final_name())),
        shown(encode_utf8(job.final_name())) == job.final_name(),
    ensures
        run_sound(request, process, job.delivering(deliver)),
        job.delivering(deliver).job.request == job.request,
        match deliver.stage {
            DeliverWait::Done(_) => job.delivering(deliver).job == (JobState {
                delivered: job.delivering(deliver).job.delivered,
                failures: job.delivering(deliver).job.failures,
                ..job
            }),
            _ => job.delivering(deliver) == job.at(RunWait::Deliver(deliver)),
        },
{
    match deliver.stage {
        DeliverWait::Done(Ok(list)) => {
            let then = JobState { delivered: list, ..job };
            assert(deliver.file_name == job.final_name());
            lemma_to_upload(request, process, then);
            lemma_to_verdict(request, process, then);
        },
        DeliverWait::Done(Err(chain)) => {
            let then = JobState {
                failures: job.failures.push(headline_of(chain)),
                ..job
            };
            lemma_to_upload(request, process, then);
            lemma_to_verdict(request, process, then);
        },
        _ => {},
    }
}

/// The artifact is found under its name.
proof fn lemma_artifact(request: Request, process: nat, job: JobState, far: int)
    requires
        job_sound(request, process, job, far),
        far >= 2,
    ensures
        file_name_of(artifact_path(job)) == Some(encode_utf8(job.final_name())),
        shown(encode_utf8(job.final_name())) == job.final_name(),
        file_name_of(child(job.work, encode_utf8(job.archive_name()))) == Some(
            encode_utf8(job.archive_name()),
        ),
        parent_of(child(job.work, encode_utf8(job.archive_name()))) == Some(tidy_end(job.work)),
        shown(encode_utf8(job.archive_name())) == job.archive_name(),
{
    lemma_names_are_plain(request.name@, job.stamp, request.encryption_type);
    lemma_named(job.work, job.archive_name());
    lemma_named(job.work, job.final_name());
    lemma_named(tidy_end(job.work), job.final_name());
}

proof fn lemma_to_delivery(request: Request, process: nat, job: JobState)
    requires
        job_sound(request, process, job, 13),
    ensures
        run_sound(request, process, job.to_delivery()),
        job.to_delivery().job == job,
        job.targets.len() > 0 ==> job.to_delivery().stage is Deliver,
        job.targets.len() == 0 ==> job.to_delivery() == job.to_upload(),
{
    if job.targets.len() > 0 {
        lemma_artifact(request, process, job, 13);
        lemma_deliver_start(job.artifact, job.targets, job.process);
        let start = deliver_start(job.artifact, job.targets, job.process);
        lemma_delivering(request, process, job, start);
        assert(start.stage is Check);
    } else {
        assert(job.delivered == places(job.targets, job.final_name()));
        lemma_to_upload(request, process, job);
        lemma_to_verdict(request, process, job);
    }
}

/// The ciphertext goes where the artifact is expected.
proof fn lemma_to_encryption(request: Request, process: nat, job: JobState)
    requires
        job_sound(request, process, job, 11),
    ensures
        run_sound(request, process, job.to_encryption()),
        job.to_encryption().job == job,
        job.request.encryption_type is Openpgp ==> job.to_encryption().stage is Encrypt,
        job.request.encryption_type is Plaintext ==> job.to_encryption() == job.to_delivery(),
{
    match job.request.encryption_type {
        EncryptionType::Plaintext => {
            lemma_to_delivery(request, process, job);
        },
        EncryptionType::Openpgp => {
            lemma_artifact(request, process, job, 11);
        },
    }
}

proof fn lemma_to_recheck(request: Request, process: nat, job: JobState, taken: Seq<bool>)
    requires
        job_sound(request, process, job, 7),
        taken.len() <= job.targets.len(),
    ensures
        run_sound(request, process, job.to_recheck(taken)),
        job.to_recheck(taken).job == job,
        progress(job.to_recheck(taken).stage) <= 8,
        progress(job.to_recheck(taken).stage) == -1 || progress(job.to_recheck(taken).stage) >= 7,
        progress(job.to_recheck(taken).stage) >= 8 ==> taken.len() == job.targets.len() && forall|
            j: int,
        |
            0 <= j < taken.len() ==> !(#[trigger] taken[j]),
        job.to_recheck(taken).stage matches RunWait::RecheckTargets(told) ==> told == taken,
{
    if taken.len() == job.targets.len() && collision_problem(
        job.targets,
        taken,
        job.final_name(),
    ) is None {
        lemma_no_collision(job.targets, taken);
    }
}

proof fn lemma_no_collision(targets: Seq<Seq<u8>>, taken: Seq<bool>)
    requires
        collisions(targets, taken).len() == 0,
        targets.len() <= taken.len(),
    ensures
        forall|j: int| 0 <= j < targets.len() ==> !(#[trigger] taken[j]),
    decreases targets.len(),
{
    if targets.len() > 0 {
        lemma_no_collision(targets.drop_last(), taken);
    }
}

proof fn lemma_to_target(request: Request, process: nat, job: JobState, i: int)
    requires
        job_sound(request, process, job, 6),
        0 <= i,
    ensures
        run_sound(request, process, job.to_target(i)),
        job.to_target(i).job == job,
        progress(job.to_target(i).stage) <= 8,
        progress(job.to_target(i).stage) == -1 || progress(job.to_target(i).stage) >= 6,
        job.targets.len() > 0 ==> progress(job.to_target(i).stage) <= 7,
        i < job.dirs.len() ==> job.to_target(i).stage == RunWait::CreateTarget(i),
        i >= job.dirs.len() ==> !(job.to_target(i).stage is CreateTarget),
        !(job.to_target(i).stage is ResolveTarget),
        !(job.to_target(i).stage is CheckTargets),
        job.to_target(i).stage matches RunWait::RecheckTargets(told) ==> told.len() == 0,
{
    if i >= job.dirs.len() && nesting_problem(job.source, job.targets) is None {
        lemma_to_recheck(request, process, job, Seq::empty());
    }
}

proof fn lemma_to_check(request: Request, process: nat, job: JobState, taken: Seq<bool>)
    requires
        job_sound(request, process, job, 4),
        taken.len() <= job.foreseen.len(),
    ensures
        run_sound(request, process, job.to_check(taken)),
        job.to_check(taken).job == job,
        progress(job.to_check(taken).stage) <= 8,
        progress(job.to_check(taken).stage) == -1 || progress(job.to_check(taken).stage) >= 4,
        progress(job.to_check(taken).stage) >= 5 ==> taken.len() == job.foreseen.len() && forall|
            j: int,
        |
            0 <= j < taken.len() ==> !(#[trigger] taken[j]),
        progress(job.to_check(taken).stage) >= 7 ==> job.dirs.len() == 0,
        job.s3 is Some ==> progress(job.to_check(taken).stage) <= 5,
        job.to_check(taken).stage matches RunWait::CheckTargets(told) ==> told == taken,
        job.to_check(taken).stage matches RunWait::CreateTarget(i) ==> i == 0,
        !(job.to_check(taken).stage is ResolveTarget),
        job.to_check(taken).stage matches RunWait::RecheckTargets(told) ==> told.len() == 0,
{
    if taken.len() == job.foreseen.len() && collision_problem(
        job.foreseen,
        taken,
        job.final_name(),
    ) is None {
        lemma_no_collision(job.foreseen, taken);
        lemma_to_target(request, process, job, 0);
    }
}

proof fn lemma_to_foresight(request: Request, process: nat, job: JobState, i: int)
    requires
        job_sound(request, process, job, 3),
        0 <= i,
    ensures
        run_sound(request, process, job.to_foresight(i)),
        job.to_foresight(i).job == job,
        progress(job.to_foresight(i).stage) <= 8,
        progress(job.to_foresight(i).stage) == -1 || progress(job.to_foresight(i).stage) >= 3,
        job.foreseen.len() > 0 ==> progress(job.to_foresight(i).stage) <= 4,
        progress(job.to_foresight(i).stage) >= 7 ==> job.dirs.len() == 0,
        job.s3 is Some ==> progress(job.to_foresight(i).stage) <= 5,
        job.to_foresight(i).stage matches RunWait::CheckTargets(told) ==> told.len() == 0,
        job.to_foresight(i).stage matches RunWait::CreateTarget(j) ==> j == 0,
        !(job.to_foresight(i).stage is ResolveTarget),
        job.to_foresight(i).stage matches RunWait::RecheckTargets(told) ==> told.len() == 0,
{
    if i >= job.dirs.len() && nesting_problem(job.source, job.foreseen) is None {
        lemma_to_check(request, process, job, Seq::empty());
    }
}

/// A place that is added stays the only one of its kind.
proof fn lemma_with_place(targets: Seq<Seq<u8>>, dir: Seq<u8>)
    requires
        all_distinct(targets),
    ensures
        all_distinct(with_place(targets, dir)),
{
    let more = with_place(targets, dir);
    assert forall|i: int, j: int| 0 <= i < j < more.len() implies !same_place(
        #[trigger] more[i],
        #[trigger] more[j],
    ) by {
        if j < targets.len() {
            assert(more[i] == targets[i] && more[j] == targets[j]);
        } else {
            assert(more[i] == targets[i] && more[j] == dir);
            assert(!holds_place(targets, dir));
        }
    }
}

/// The keyring was listed, and holds every recipient.
pub open spec fn keys_accepted() -> spec_fn(RunState, RunReply) -> bool {
    |state: RunState, reply: RunReply|
        state.stage is ListKeys && (reply matches RunReply::Keys(listing) && recipients_problem(
            texts(state.job.request.recipients@),
            listing,
        ) is None)
}

/// The resolved source was found to be a directory.
pub open spec fn source_was_directory(path: Seq<u8>) -> spec_fn(RunState, RunReply) -> bool {
    |state: RunState, reply: RunReply|
        state.stage is ProbeSource && state.job.source == path && reply == RunReply::Is(true)
}

/// Nothing was found at the place of the artifact in a foreseen target.
pub open spec fn foreseen_place_was_free(path: Seq<u8>) -> spec_fn(RunState, RunReply) -> bool {
    |state: RunState, reply: RunReply|
        {
            &&& state.stage matches RunWait::CheckTargets(taken) && taken.len()
                < state.job.foreseen.len() && path == child(
                state.job.foreseen[taken.len() as int],
                encode_utf8(state.job.final_name()),
            )
            &&& reply == RunReply::Is(false)
        }
}

/// Nothing was found at the place of the artifact in a target.
pub open spec fn place_was_free(path: Seq<u8>) -> spec_fn(RunState, RunReply) -> bool {
    |state: RunState, reply: RunReply|
        {
            &&& state.stage matches RunWait::RecheckTargets(taken) && taken.len()
                < state.job.targets.len() && path == child(
                state.job.targets[taken.len() as int],
                encode_utf8(state.job.final_name()),
            )
            &&& reply == RunReply::Is(false)
        }
}

/// The object was found not to exist.
pub open spec fn object_was_free() -> spec_fn(RunState, RunReply) -> bool {
    |state: RunState, reply: RunReply|
        state.stage is HeadObject && reply == RunReply::Head(Head::NotFound)
}

/// The snapshot of the database succeeded.
pub open spec fn snapshot_taken() -> spec_fn(RunState, RunReply) -> bool {
    |state: RunState, reply: RunReply|
        state.stage is Snapshot && reply is Snapshot && (state.stage->Snapshot_0.next(
            reply->Snapshot_0,
        ).stage matches BackupWait::Done(Ok(_)))
}

/// The packaging succeeded.
pub open spec fn archive_made() -> spec_fn(RunState, RunReply) -> bool {
    |state: RunState, reply: RunReply|
        state.stage is Package && reply is Package && (state.stage->Package_0.next(
            reply->Package_0,
        ).stage matches CreateWait::Done(Ok(_)))
}

/// The encryption succeeded, and made this file.
pub open spec fn ciphertext_made(path: Seq<u8>) -> spec_fn(RunState, RunReply) -> bool {
    |state: RunState, reply: RunReply|
        state.stage is Encrypt && reply is Encrypt && state.stage->Encrypt_0.next(
            reply->Encrypt_0,
        ).stage == EncryptWait::Done(Ok(path))
}

/// The delivery to the local targets succeeded.
pub open spec fn delivered_locally() -> spec_fn(RunState, RunReply) -> bool {
    |state: RunState, reply: RunReply|
        state.stage is Deliver && reply is Deliver && (state.stage->Deliver_0.next(
            reply->Deliver_0,
        ).stage matches DeliverWait::Done(Ok(_)))
}

/// The upload succeeded.
pub open spec fn uploaded() -> spec_fn(RunState, RunReply) -> bool {
    |state: RunState, reply: RunReply|
        state.stage is Upload && reply is Upload && (state.stage->Upload_0.next(
            reply->Upload_0,
        ).stage matches UploadWait::Done(Ok(_)))
}

/// Something was replied to a run that cleaned up.
pub open spec fn cleanup_went_on() -> spec_fn(RunState, RunReply) -> bool {
    |state: RunState, reply: RunReply| cleans(state.stage)
}

/// The scratch directory was removed, as far as it could be.
pub open spec fn scratch_dropped() -> spec_fn(RunState, RunReply) -> bool {
    |state: RunState, reply: RunReply| state.stage is DropScratch && reply is Dropped
}

/// Something was replied to a run that worked in its scratch directory, delivered
/// or cleaned up.
pub open spec fn work_went_on() -> spec_fn(RunState, RunReply) -> bool {
    |state: RunState, reply: RunReply| progress(state.stage) >= 9
}

/// The place of the artifact in the `j`-th foreseen target.
spec fn foreseen_place(job: JobState, j: int) -> Seq<u8> {
    child(job.foreseen[j], encode_utf8(job.final_name()))
}

/// The place of the artifact in the `j`-th target.
spec fn place(job: JobState, j: int) -> Seq<u8> {
    child(job.targets[j], encode_utf8(job.final_name()))
}

/// What one reply can bring about before the work begins.
spec fn checks_advance(state: RunState, reply: RunReply) -> bool {
    let then = state.next(reply);
    let far = progress(state.stage);
    let further = progress(then.stage);
    &&& further >= 1 ==> far >= 1 || keys_accepted()(state, reply)
    &&& further >= 3 ==> (far >= 3 && then.job.source == state.job.source)
        || source_was_directory(then.job.source)(state, reply)
    &&& further >= 0 ==> further >= far
    &&& state.stage is ListKeys ==> further <= 1
    &&& state.stage is ReadClock || then.job.stamp == state.job.stamp
    &&& state.stage is ReadClock ==> match reply {
        RunReply::Clock(now) => then.job.stamp == stamp_text(now@) && further == 2,
        _ => then == state,
    }
    &&& far >= 4 && further >= 4 ==> then.job.foreseen == state.job.foreseen
    &&& far < 4 && further >= 5 ==> then.job.foreseen.len() == 0
    &&& far < 4 ==> (then.stage matches RunWait::CheckTargets(taken) ==> taken.len() == 0)
    &&& state.stage matches RunWait::CheckTargets(taken) ==> {
        ||| then == state
        ||| further == -1
        ||| reply is Is && then.stage == RunWait::CheckTargets(taken.push(reply->Is_0))
        ||| reply is Is && further >= 5 && taken.len() + 1 == then.job.foreseen.len()
            && !reply->Is_0 && forall|j: int| 0 <= j < taken.len() ==> !(#[trigger] taken[j])
    }
    &&& further >= 6 && then.job.s3 is Some ==> far >= 6 || object_was_free()(state, reply)
    &&& far >= 7 && further >= 7 ==> then.job.targets == state.job.targets
    &&& far < 7 && further >= 8 ==> then.job.targets.len() == 0
    &&& far < 7 ==> (then.stage matches RunWait::RecheckTargets(taken) ==> taken.len() == 0)
    &&& state.stage matches RunWait::RecheckTargets(taken) ==> {
        ||| then == state
        ||| further == -1
        ||| reply is Is && then.stage == RunWait::RecheckTargets(taken.push(reply->Is_0))
        ||| reply is Is && further >= 8 && taken.len() + 1 == then.job.targets.len() && !reply->Is_0
            && forall|j: int| 0 <= j < taken.len() ==> !(#[trigger] taken[j])
    }
    &&& further < 9
    &&& then.stage is Done ==> !then.job.scratch
}

/// What one reply can bring about while the run works.
spec fn work_advances(state: RunState, reply: RunReply) -> bool {
    let then = state.next(reply);
    let job = state.job;
    let far = progress(state.stage);
    let further = progress(then.stage);
    &&& further >= 0 ==> {
        &&& further >= far
        &&& then.job.source == job.source && then.job.foreseen == job.foreseen && then.job.targets
            == job.targets && then.job.stamp == job.stamp && then.job.s3 == job.s3
    }
    &&& further >= 10 ==> far >= 10 || snapshot_taken()(state, reply)
    &&& further >= 11 ==> far >= 11 || archive_made()(state, reply)
    &&& further >= 13 && job.request.encryption_type is Openpgp ==> (far >= 13 && then.job.artifact
        == job.artifact) || ciphertext_made(then.job.artifact)(state, reply)
    &&& further >= 14 && job.targets.len() > 0 && then.job.failures.len() == 0 ==> (far >= 14
        && job.failures.len() == 0) || delivered_locally()(state, reply)
    &&& further >= 15 && job.s3 is Some ==> far >= 15 || uploaded()(state, reply)
    &&& far >= 15 ==> further >= far
    &&& then.job.stamp == job.stamp
    &&& state.job.scratch ==> then.job.scratch
    &&& then.stage is Done && then.job.scratch ==> state.stage is Done || scratch_dropped()(
        state,
        reply,
    )
}

proof fn lemma_keys_listed(request: Request, process: nat, state: RunState, reply: RunReply)
    requires
        run_sound(request, process, state),
        state.stage is ListKeys,
    ensures
        run_sound(request, process, state.next(reply)),
        checks_advance(state, reply),
{
    reveal(JobState::after_list_keys);
}

proof fn lemma_clock_read(request: Request, process: nat, state: RunState, reply: RunReply)
    requires
        run_sound(request, process, state),
        state.stage is ReadClock,
        reply matches RunReply::Clock(now) ==> in_range(now@),
    ensures
        run_sound(request, process, state.next(reply)),
        checks_advance(state, reply),
{
    reveal(JobState::after_read_clock);
    match reply {
        RunReply::Clock(now) => {
            assert(is_stamp(stamp_text(now@)));
        },
        _ => {},
    }
}

proof fn lemma_source_resolved(request: Request, process: nat, state: RunState, reply: RunReply)
    requires
        run_sound(request, process, state),
        state.stage is ResolveSource,
    ensures
        run_sound(request, process, state.next(reply)),
        checks_advance(state, reply),
{
    reveal(JobState::after_resolve_source);
}

proof fn lemma_source_probed(request: Request, process: nat, state: RunState, reply: RunReply)
    requires
        run_sound(request, process, state),
        state.stage is ProbeSource,
    ensures
        run_sound(request, process, state.next(reply)),
        checks_advance(state, reply),
{
    reveal(JobState::after_probe_source);
    if reply == RunReply::Is(true) && s3_targets(request.targets@).len() <= 1 {
        let then = JobState {
            dirs: local_dirs(request.targets@),
            s3: s3_target(request.targets@),
            ..state.job
        };
        lemma_to_foresight(request, process, then, 0);
    }
}

proof fn lemma_foresight_step(request: Request, process: nat, state: RunState, reply: RunReply)
    requires
        run_sound(request, process, state),
        state.stage is ForeseeTarget,
    ensures
        run_sound(request, process, state.next(reply)),
        checks_advance(state, reply),
{
    reveal(JobState::after_foresee_target);
    match (state.stage, reply) {
        (RunWait::ForeseeTarget(i, foresight), RunReply::Foreseen(reply)) => {
            match foresight.next(reply).stage {
                ForeseeWait::Done(Ok(path)) => {
                    let then = JobState {
                        foreseen: with_place(state.job.foreseen, path),
                        ..state.job
                    };
                    lemma_to_foresight(request, process, then, i + 1);
                },
                _ => {},
            }
        },
        _ => {},
    }
}

proof fn lemma_target_rechecked(request: Request, process: nat, state: RunState, reply: RunReply)
    requires
        run_sound(request, process, state),
        state.stage is RecheckTargets,
    ensures
        run_sound(request, process, state.next(reply)),
        checks_advance(state, reply),
{
    reveal(JobState::after_recheck_targets);
    match (state.stage, reply) {
        (RunWait::RecheckTargets(taken), RunReply::Is(found)) => {
            let more = taken.push(found);
            lemma_to_recheck(request, process, state.job, more);
            if progress(state.job.to_recheck(more).stage) >= 8 {
                assert(!more[taken.len() as int]);
                assert forall|j: int| 0 <= j < taken.len() implies !(#[trigger] taken[j]) by {
                    assert(more[j] == taken[j]);
                }
            }
        },
        _ => {},
    }
}

proof fn lemma_target_created(request: Request, process: nat, state: RunState, reply: RunReply)
    requires
        run_sound(request, process, state),
        state.stage is CreateTarget,
    ensures
        run_sound(request, process, state.next(reply)),
        checks_advance(state, reply),
{
    reveal(JobState::after_create_target);
}

proof fn lemma_target_resolved(request: Request, process: nat, state: RunState, reply: RunReply)
    requires
        run_sound(request, process, state),
        state.stage is ResolveTarget,
    ensures
        run_sound(request, process, state.next(reply)),
        checks_advance(state, reply),
{
    reveal(JobState::after_resolve_target);
    match (state.stage, reply) {
        (RunWait::ResolveTarget(i), RunReply::Resolved(Ok(path))) => {
            let then = JobState { targets: with_place(state.job.targets, path@), ..state.job };
            lemma_with_place(state.job.targets, path@);
            lemma_to_target(request, process, then, i + 1);
        },
        _ => {},
    }
}

proof fn lemma_target_checked(request: Request, process: nat, state: RunState, reply: RunReply)
    requires
        run_sound(request, process, state),
        state.stage is CheckTargets,
    ensures
        run_sound(request, process, state.next(reply)),
        checks_advance(state, reply),
{
    reveal(JobState::after_check_targets);
    match (state.stage, reply) {
        (RunWait::CheckTargets(taken), RunReply::Is(found)) => {
            let more = taken.push(found);
            lemma_to_check(request, process, state.job, more);
            if progress(state.job.to_check(more).stage) >= 5 {
                assert(!more[taken.len() as int]);
                assert forall|j: int| 0 <= j < taken.len() implies !(#[trigger] taken[j]) by {
                    assert(more[j] == taken[j]);
                }
            }
        },
        _ => {},
    }
}

proof fn lemma_connected(request: Request, process: nat, state: RunState, reply: RunReply)
    requires
        run_sound(request, process, state),
        state.stage is Connect,
    ensures
        run_sound(request, process, state.next(reply)),
        checks_advance(state, reply),
{
    reveal(JobState::after_connect);
}

proof fn lemma_object_looked_for(request: Request, process: nat, state: RunState, reply: RunReply)
    requires
        run_sound(request, process, state),
        state.stage is HeadObject,
    ensures
        run_sound(request, process, state.next(reply)),
        checks_advance(state, reply),
{
    reveal(JobState::after_head_object);
    lemma_to_target(request, process, state.job, 0);
}

proof fn lemma_scratch_made(request: Request, process: nat, state: RunState, reply: RunReply)
    requires
        run_sound(request, process, state),
        state.stage is MakeScratch,
    ensures
        run_sound(request, process, state.next(reply)),
        work_advances(state, reply),
{
    reveal(JobState::after_make_scratch);
}

proof fn lemma_snapshot_step(request: Request, process: nat, state: RunState, reply: RunReply)
    requires
        run_sound(request, process, state),
        state.stage is Snapshot,
    ensures
        run_sound(request, process, state.next(reply)),
        work_advances(state, reply),
{
    reveal(JobState::after_snapshot);
}

proof fn lemma_packaging_step(request: Request, process: nat, state: RunState, reply: RunReply)
    requires
        run_sound(request, process, state),
        state.stage is Package,
    ensures
        run_sound(request, process, state.next(reply)),
        work_advances(state, reply),
{
    reveal(JobState::after_package);
}

proof fn lemma_snapshot_dropped(request: Request, process: nat, state: RunState, reply: RunReply)
    requires
        run_sound(request, process, state),
        state.stage is DropSnapshot,
    ensures
        run_sound(request, process, state.next(reply)),
        work_advances(state, reply),
{
    reveal(JobState::after_drop_snapshot);
    let job = state.job;
    if reply is Dropped {
        lemma_to_encryption(request, process, job);
        if job.request.encryption_type is Plaintext {
            lemma_to_delivery(request, process, job);
            if job.targets.len() == 0 {
                assert(job.delivered == places(job.targets, job.final_name()));
                lemma_to_upload(request, process, job);
                lemma_to_verdict(request, process, job);
            }
        }
    }
}

proof fn lemma_encryption_step(request: Request, process: nat, state: RunState, reply: RunReply)
    requires
        run_sound(request, process, state),
        state.stage is Encrypt,
    ensures
        run_sound(request, process, state.next(reply)),
        work_advances(state, reply),
{
    reveal(JobState::after_encrypt);
    match (state.stage, reply) {
        (RunWait::Encrypt(encrypt), RunReply::Encrypt(reply)) => {
            match encrypt.next(reply).stage {
                EncryptWait::Done(Ok(path)) => {
                    let then = JobState { artifact: path, ..state.job };
                    lemma_to_delivery(request, process, then);
                    if then.targets.len() == 0 {
                        assert(then.delivered == places(then.targets, then.final_name()));
                        lemma_to_upload(request, process, then);
                        lemma_to_verdict(request, process, then);
                    }
                },
                _ => {},
            }
        },
        _ => {},
    }
}

proof fn lemma_delivery_step(request: Request, process: nat, state: RunState, reply: RunReply)
    requires
        run_sound(request, process, state),
        state.stage is Deliver,
    ensures
        run_sound(request, process, state.next(reply)),
        work_advances(state, reply),
{
    reveal(JobState::after_deliver);
    let job = state.job;
    match (state.stage, reply) {
        (RunWait::Deliver(deliver), RunReply::Deliver(reply)) => {
            let start = deliver_start(job.artifact, job.targets, job.process);
            let now = deliver.next(reply);
            lemma_deliver_step(start, deliver, reply);
            lemma_artifact(request, process, job, 13);
            lemma_delivering(request, process, job, now);
            match now.stage {
                DeliverWait::Done(Ok(list)) => {
                    let then = JobState { delivered: list, ..job };
                    assert(now.file_name == job.final_name());
                    lemma_to_upload(request, process, then);
                    lemma_to_verdict(request, process, then);
                },
                DeliverWait::Done(Err(chain)) => {
                    let then = JobState { failures: job.failures.push(headline_of(chain)), ..job };
                    lemma_to_upload(request, process, then);
                    lemma_to_verdict(request, process, then);
                },
                _ => {},
            }
        },
        _ => {},
    }
}

proof fn lemma_upload_step(request: Request, process: nat, state: RunState, reply: RunReply)
    requires
        run_sound(request, process, state),
        state.stage is Upload,
    ensures
        run_sound(request, process, state.next(reply)),
        work_advances(state, reply),
{
    reveal(JobState::after_upload);
}

proof fn lemma_clock_read_again(request: Request, process: nat, state: RunState, reply: RunReply)
    requires
        run_sound(request, process, state),
        state.stage is ReadClockAgain,
    ensures
        run_sound(request, process, state.next(reply)),
        work_advances(state, reply),
{
    reveal(JobState::after_read_clock_again);
    match reply {
        RunReply::Clock(now) => {
            lemma_to_cleanup(request, process, state.job, 0, now@);
        },
        _ => {},
    }
}

proof fn lemma_target_cleanup_step(request: Request, process: nat, state: RunState, reply: RunReply)
    requires
        run_sound(request, process, state),
        state.stage is CleanTarget,
    ensures
        run_sound(request, process, state.next(reply)),
        work_advances(state, reply),
{
    reveal(JobState::after_clean_target);
    match (state.stage, reply) {
        (RunWait::CleanTarget(i, cleanup), RunReply::CleanTarget(reply)) => {
            lemma_cleanup_keeps(cleanup, reply);
            lemma_to_cleanup(request, process, state.job, i + 1, cleanup.next(reply).now);
        },
        _ => {},
    }
}

proof fn lemma_bucket_cleanup_step(request: Request, process: nat, state: RunState, reply: RunReply)
    requires
        run_sound(request, process, state),
        state.stage is CleanBucket,
    ensures
        run_sound(request, process, state.next(reply)),
        work_advances(state, reply),
{
    reveal(JobState::after_clean_bucket);
}

proof fn lemma_scratch_step(request: Request, process: nat, state: RunState, reply: RunReply)
    requires
        run_sound(request, process, state),
        state.stage is DropScratch,
    ensures
        run_sound(request, process, state.next(reply)),
        progress(state.stage) >= 8 ==> work_advances(state, reply),
        progress(state.stage) == -1 ==> progress(state.next(reply).stage) == -1,
        state.next(reply) == state || scratch_dropped()(state, reply),
        state.next(reply).job == state.job,
{
    reveal(JobState::after_drop_scratch);
}

/// Every reply keeps a run sound, and brings about what it can at that point.
proof fn lemma_run_step(request: Request, process: nat, state: RunState, reply: RunReply)
    requires
        run_sound(request, process, state),
        reply matches RunReply::Clock(now) ==> in_range(now@),
    ensures
        run_sound(request, process, state.next(reply)),
        0 <= progress(state.stage) < 8 ==> checks_advance(state, reply),
        8 <= progress(state.stage) ==> work_advances(state, reply),
        progress(state.stage) == -1 ==> progress(state.next(reply).stage) == -1,
        progress(state.stage) == -1 ==> state.next(reply).job == state.job && (state.next(reply)
            == state || scratch_dropped()(state, reply)),
        state.stage is Done ==> state.next(reply) == state,
{
    match state.stage {
        RunWait::ListKeys => lemma_keys_listed(request, process, state, reply),
        RunWait::ReadClock => lemma_clock_read(request, process, state, reply),
        RunWait::ResolveSource => lemma_source_resolved(request, process, state, reply),
        RunWait::ProbeSource => lemma_source_probed(request, process, state, reply),
        RunWait::ForeseeTarget(_, _) => lemma_foresight_step(request, process, state, reply),
        RunWait::CreateTarget(_) => lemma_target_created(request, process, state, reply),
        RunWait::ResolveTarget(_) => lemma_target_resolved(request, process, state, reply),
        RunWait::CheckTargets(_) => lemma_target_checked(request, process, state, reply),
        RunWait::RecheckTargets(_) => lemma_target_rechecked(request, process, state, reply),
        RunWait::Connect => lemma_connected(request, process, state, reply),
        RunWait::HeadObject => lemma_object_looked_for(request, process, state, reply),
        RunWait::MakeScratch => lemma_scratch_made(request, process, state, reply),
        RunWait::Snapshot(_) => lemma_snapshot_step(request, process, state, reply),
        RunWait::Package(_) => lemma_packaging_step(request, process, state, reply),
        RunWait::DropSnapshot => lemma_snapshot_dropped(request, process, state, reply),
        RunWait::Encrypt(_) => lemma_encryption_step(request, process, state, reply),
        RunWait::Deliver(_) => lemma_delivery_step(request, process, state, reply),
        RunWait::Upload(_) => lemma_upload_step(request, process, state, reply),
        RunWait::ReadClockAgain => lemma_clock_read_again(request, process, state, reply),
        RunWait::CleanTarget(_, _) => lemma_target_cleanup_step(request, process, state, reply),
        RunWait::CleanBucket(_) => lemma_bucket_cleanup_step(request, process, state, reply),
        RunWait::DropScratch(_) => lemma_scratch_step(request, process, state, reply),
        RunWait::Done(_) => law_done_is_final(state, reply),
    }
}

proof fn lemma_clocks(replies: Seq<RunReply>)
    requires
        clocks_are_valid(replies),
        replies.len() > 0,
    ensures
        clocks_are_valid(replies.drop_last()),
        replies.last() matches RunReply::Clock(now) ==> in_range(now@),
{
    let before = replies.drop_last();
    assert(replies[replies.len() - 1] == replies.last());
    assert forall|i: int| 0 <= i < before.len() implies (
    #[trigger] before[i] matches RunReply::Clock(now) ==> in_range(now@)) by {
        assert(before[i] == replies[i]);
    }
}

proof fn lemma_run_is_sound(request: Request, process: nat, replies: Seq<RunReply>)
    requires
        clocks_are_valid(replies),
    ensures
        run_sound(request, process, run_after(run_start(request, process), replies)),
    decreases replies.len(),
{
    if replies.len() > 0 {
        let before = replies.drop_last();
        lemma_clocks(replies);
        lemma_run_is_sound(request, process, before);
        let state = run_after(run_start(request, process), before);
        lemma_run_step(request, process, state, replies.last());
    }
}

/// What must have happened before a run has passed its checks.
spec fn checks_happened(start: RunState, replies: Seq<RunReply>) -> bool {
    let state = run_after(start, replies);
    let job = state.job;
    let far = progress(state.stage);
    &&& far >= 1 ==> job.request.recipients@.len() == 0 || run_happened(
        start,
        replies,
        keys_accepted(),
    )
    &&& far >= 3 ==> run_happened(start, replies, source_was_directory(job.source))
    &&& far >= 6 && job.s3 is Some ==> run_happened(start, replies, object_was_free())
}

proof fn lemma_checks_happened(request: Request, process: nat, replies: Seq<RunReply>)
    requires
        clocks_are_valid(replies),
    ensures
        checks_happened(run_start(request, process), replies),
    decreases replies.len(),
{
    let start = run_start(request, process);
    if replies.len() > 0 {
        let next = |state: RunState, reply: RunReply| state.next(reply);
        let earlier = replies.drop_last();
        let before = run_after(start, earlier);
        let reply = replies.last();
        let state = run_after(start, replies);
        lemma_clocks(replies);
        lemma_run_is_sound(request, process, earlier);
        lemma_run_is_sound(request, process, replies);
        lemma_checks_happened(request, process, earlier);
        assert(state == before.next(reply));
        lemma_run_step(request, process, before, reply);
        lemma_happened(start, next, replies, keys_accepted());
        lemma_happened(start, next, replies, source_was_directory(state.job.source));
        lemma_happened(start, next, replies, object_was_free());
    }
}

/// Which of the foreseen places were found free.
spec fn foreseen_places_told(start: RunState, replies: Seq<RunReply>) -> bool {
    let state = run_after(start, replies);
    &&& state.stage matches RunWait::CheckTargets(taken) ==> forall|j: int|
        0 <= j < taken.len() && !(#[trigger] taken[j]) ==> run_happened(
            start,
            replies,
            foreseen_place_was_free(foreseen_place(state.job, j)),
        )
    &&& progress(state.stage) >= 5 ==> forall|j: int|
        0 <= j < state.job.foreseen.len() ==> run_happened(
            start,
            replies,
            foreseen_place_was_free(#[trigger] foreseen_place(state.job, j)),
        )
}

proof fn lemma_foreseen_places_told(request: Request, process: nat, replies: Seq<RunReply>)
    requires
        clocks_are_valid(replies),
    ensures
        foreseen_places_told(run_start(request, process), replies),
    decreases replies.len(),
{
    let next = |state: RunState, reply: RunReply| state.next(reply);
    let start = run_start(request, process);
    if replies.len() > 0 {
        let earlier = replies.drop_last();
        let before = run_after(start, earlier);
        let reply = replies.last();
        let state = run_after(start, replies);
        lemma_clocks(replies);
        lemma_run_is_sound(request, process, earlier);
        lemma_run_is_sound(request, process, replies);
        lemma_foreseen_places_told(request, process, earlier);
        assert(state == before.next(reply));
        lemma_run_step(request, process, before, reply);
        match state.stage {
            RunWait::CheckTargets(taken) => {
                assert forall|j: int|
                    0 <= j < taken.len() && !(#[trigger] taken[j]) implies run_happened(
                    start,
                    replies,
                    foreseen_place_was_free(foreseen_place(state.job, j)),
                ) by {
                    let what = foreseen_place_was_free(foreseen_place(state.job, j));
                    lemma_happened(start, next, replies, what);
                    match before.stage {
                        RunWait::CheckTargets(told) => {
                            if j < told.len() {
                                assert(told[j] == taken[j]);
                            } else {
                                assert(what(before, reply));
                            }
                        },
                        _ => {},
                    }
                }
            },
            _ => {},
        }
        if progress(state.stage) >= 5 {
            assert forall|j: int| 0 <= j < state.job.foreseen.len() implies run_happened(
                start,
                replies,
                foreseen_place_was_free(#[trigger] foreseen_place(state.job, j)),
            ) by {
                let what = foreseen_place_was_free(foreseen_place(state.job, j));
                lemma_happened(start, next, replies, what);
                match before.stage {
                    RunWait::CheckTargets(told) => {
                        if j < told.len() {
                            assert(!told[j]);
                        } else {
                            assert(what(before, reply));
                        }
                    },
                    _ => {
                        assert(foreseen_place(before.job, j) == foreseen_place(state.job, j));
                    },
                }
            }
        }
    }
}

/// Which of the targets' places were found free.
spec fn places_told(start: RunState, replies: Seq<RunReply>) -> bool {
    let state = run_after(start, replies);
    &&& state.stage matches RunWait::RecheckTargets(taken) ==> forall|j: int|
        0 <= j < taken.len() && !(#[trigger] taken[j]) ==> run_happened(
            start,
            replies,
            place_was_free(place(state.job, j)),
        )
    &&& progress(state.stage) >= 8 ==> forall|j: int|
        0 <= j < state.job.targets.len() ==> run_happened(
            start,
            replies,
            place_was_free(#[trigger] place(state.job, j)),
        )
}

proof fn lemma_places_told(request: Request, process: nat, replies: Seq<RunReply>)
    requires
        clocks_are_valid(replies),
    ensures
        places_told(run_start(request, process), replies),
    decreases replies.len(),
{
    let next = |state: RunState, reply: RunReply| state.next(reply);
    let start = run_start(request, process);
    if replies.len() > 0 {
        let earlier = replies.drop_last();
        let before = run_after(start, earlier);
        let reply = replies.last();
        let state = run_after(start, replies);
        lemma_clocks(replies);
        lemma_run_is_sound(request, process, earlier);
        lemma_run_is_sound(request, process, replies);
        lemma_places_told(request, process, earlier);
        assert(state == before.next(reply));
        lemma_run_step(request, process, before, reply);
        match state.stage {
            RunWait::RecheckTargets(taken) => {
                assert forall|j: int|
                    0 <= j < taken.len() && !(#[trigger] taken[j]) implies run_happened(
                    start,
                    replies,
                    place_was_free(place(state.job, j)),
                ) by {
                    let what = place_was_free(place(state.job, j));
                    lemma_happened(start, next, replies, what);
                    match before.stage {
                        RunWait::RecheckTargets(told) => {
                            if j < told.len() {
                                assert(told[j] == taken[j]);
                            } else {
                                assert(what(before, reply));
                            }
                        },
                        _ => {},
                    }
                }
            },
            _ => {},
        }
        if progress(state.stage) >= 8 {
            assert forall|j: int| 0 <= j < state.job.targets.len() implies run_happened(
                start,
                replies,
                place_was_free(#[trigger] place(state.job, j)),
            ) by {
                let what = place_was_free(place(state.job, j));
                lemma_happened(start, next, replies, what);
                match before.stage {
                    RunWait::RecheckTargets(told) => {
                        if j < told.len() {
                            assert(!told[j]);
                        } else {
                            assert(what(before, reply));
                        }
                    },
                    _ => {
                        assert(place(before.job, j) == place(state.job, j));
                    },
                }
            }
        }
    }
}

/// What must have happened before a run has come so far in its work.
spec fn work_happened(start: RunState, replies: Seq<RunReply>) -> bool {
    let state = run_after(start, replies);
    let job = state.job;
    let far = progress(state.stage);
    &&& far >= 10 ==> run_happened(start, replies, snapshot_taken())
    &&& far >= 11 ==> run_happened(start, replies, archive_made())
    &&& far >= 13 && job.request.encryption_type is Openpgp ==> run_happened(
        start,
        replies,
        ciphertext_made(job.artifact),
    )
    &&& far >= 14 && job.targets.len() > 0 && job.failures.len() == 0 ==> run_happened(
        start,
        replies,
        delivered_locally(),
    )
    &&& far >= 15 && job.s3 is Some ==> run_happened(start, replies, uploaded())
    &&& run_happened(start, replies, cleanup_went_on()) ==> far >= 16
    &&& run_happened(start, replies, work_went_on()) ==> job.scratch
    &&& state.stage is Done && job.scratch ==> run_happened(start, replies, scratch_dropped())
}

proof fn lemma_work_happened(request: Request, process: nat, replies: Seq<RunReply>)
    requires
        clocks_are_valid(replies),
    ensures
        work_happened(run_start(request, process), replies),
    decreases replies.len(),
{
    let next = |state: RunState, reply: RunReply| state.next(reply);
    let start = run_start(request, process);
    if replies.len() == 0 {
        lemma_nothing_happened(start, next, replies, cleanup_went_on());
        lemma_nothing_happened(start, next, replies, work_went_on());
    } else {
        let earlier = replies.drop_last();
        let before = run_after(start, earlier);
        let reply = replies.last();
        let state = run_after(start, replies);
        lemma_clocks(replies);
        lemma_run_is_sound(request, process, earlier);
        lemma_run_is_sound(request, process, replies);
        lemma_work_happened(request, process, earlier);
        assert(state == before.next(reply));
        lemma_run_step(request, process, before, reply);
        lemma_happened(start, next, replies, snapshot_taken());
        lemma_happened(start, next, replies, archive_made());
        lemma_happened(start, next, replies, ciphertext_made(state.job.artifact));
        lemma_happened(start, next, replies, delivered_locally());
        lemma_happened(start, next, replies, uploaded());
        lemma_happened(start, next, replies, scratch_dropped());
        lemma_happened_lately(start, next, replies, cleanup_went_on());
        lemma_happened_lately(start, next, replies, work_went_on());
    }
}

/// A run refuses before it works. Once it creates its scratch directory, the
/// request was in order, every recipient's key was in the keyring, the source was
/// a directory, no target was in the source's way or given twice, every target
/// was found not to hold the artifact, and neither did the object store.
pub proof fn law_checked_before_work(request: Request, process: nat, replies: Seq<RunReply>)
    requires
        clocks_are_valid(replies),
        works(run_after(run_start(request, process), replies).stage),
    ensures
        ({
            let start = run_start(request, process);
            let job = run_after(start, replies).job;
            &&& request_problem(request) is None
            &&& request.recipients@.len() > 0 ==> run_happened(start, replies, keys_accepted())
            &&& run_happened(start, replies, source_was_directory(job.source))
            &&& s3_targets(request.targets@).len() <= 1 && job.s3 == s3_target(request.targets@)
            &&& nesting_problem(job.source, job.targets) is None
            &&& all_distinct(job.targets)
            &&& forall|j: int|
                0 <= j < job.targets.len() ==> run_happened(
                    start,
                    replies,
                    place_was_free(
                        child(#[trigger] job.targets[j], encode_utf8(job.final_name())),
                    ),
                )
            &&& job.s3 is Some ==> run_happened(start, replies, object_was_free())
        }),
{
    let start = run_start(request, process);
    let job = run_after(start, replies).job;
    lemma_run_is_sound(request, process, replies);
    lemma_checks_happened(request, process, replies);
    lemma_places_told(request, process, replies);
    assert forall|j: int| 0 <= j < job.targets.len() implies run_happened(
        start,
        replies,
        place_was_free(child(#[trigger] job.targets[j], encode_utf8(job.final_name()))),
    ) by {
        assert(place(job, j) == child(job.targets[j], encode_utf8(job.final_name())));
    }
}

/// A request that cannot be served as it stands is refused at once, with the
/// reason, and nothing is ever done for it.
pub proof fn law_bad_requests_are_refused_at_once(
    request: Request,
    process: nat,
    replies: Seq<RunReply>,
)
    requires
        request_problem(request) is Some,
    ensures
        run_after(run_start(request, process), replies) == run_start(request, process),
        run_start(request, process).stage == RunWait::Done(Err(request_problem(request)->0)),
    decreases replies.len(),
{
    if replies.len() > 0 {
        law_bad_requests_are_refused_at_once(request, process, replies.drop_last());
        law_done_is_final(run_start(request, process), replies.last());
    }
}

/// A refused target is not created: once the run asks for a directory to be
/// created, none of the places where the targets will lie is in the source's way,
/// each was found not to hold the artifact, and the object store, where there is
/// one, was found not to hold it either.
pub proof fn law_refused_targets_are_not_created(
    request: Request,
    process: nat,
    replies: Seq<RunReply>,
)
    requires
        clocks_are_valid(replies),
        run_after(run_start(request, process), replies).stage is CreateTarget,
    ensures
        ({
            let start = run_start(request, process);
            let job = run_after(start, replies).job;
            &&& nesting_problem(job.source, job.foreseen) is None
            &&& forall|j: int|
                0 <= j < job.foreseen.len() ==> run_happened(
                    start,
                    replies,
                    foreseen_place_was_free(
                        child(#[trigger] job.foreseen[j], encode_utf8(job.final_name())),
                    ),
                )
            &&& job.s3 is Some ==> run_happened(start, replies, object_was_free())
        }),
{
    let start = run_start(request, process);
    let job = run_after(start, replies).job;
    lemma_run_is_sound(request, process, replies);
    lemma_checks_happened(request, process, replies);
    lemma_foreseen_places_told(request, process, replies);
    assert forall|j: int| 0 <= j < job.foreseen.len() implies run_happened(
        start,
        replies,
        foreseen_place_was_free(child(#[trigger] job.foreseen[j], encode_utf8(job.final_name()))),
    ) by {
        assert(foreseen_place(job, j) == child(job.foreseen[j], encode_utf8(job.final_name())));
    }
}

/// No target is so much as created before every recipient's key was found in the
/// keyring and the source was found to be a directory.
pub proof fn law_targets_come_after_recipients(
    request: Request,
    process: nat,
    replies: Seq<RunReply>,
)
    requires
        clocks_are_valid(replies),
        run_after(run_start(request, process), replies).stage is CreateTarget,
    ensures
        ({
            let start = run_start(request, process);
            let job = run_after(start, replies).job;
            &&& request.recipients@.len() > 0 ==> run_happened(start, replies, keys_accepted())
            &&& run_happened(start, replies, source_was_directory(job.source))
        }),
{
    lemma_run_is_sound(request, process, replies);
    lemma_checks_happened(request, process, replies);
}

/// A run that ended before it made its scratch directory has neither archived nor
/// delivered nor deleted anything.
pub proof fn law_refused_runs_do_nothing(request: Request, process: nat, replies: Seq<RunReply>)
    requires
        clocks_are_valid(replies),
        !run_after(run_start(request, process), replies).job.scratch,
    ensures
        !run_happened(run_start(request, process), replies, work_went_on()),
{
    lemma_work_happened(request, process, replies);
}

/// Nothing is delivered before the artifact is complete: the database snapshot
/// and the packaging have succeeded, and so has the encryption where one was
/// asked for. What is delivered and uploaded is that artifact and nothing else,
/// under its own name and key.
pub proof fn law_only_finished_artifacts_are_delivered(
    request: Request,
    process: nat,
    replies: Seq<RunReply>,
)
    requires
        clocks_are_valid(replies),
        ({
            let stage = run_after(run_start(request, process), replies).stage;
            stage is Deliver || stage is Upload
        }),
    ensures
        ({
            let start = run_start(request, process);
            let job = run_after(start, replies).job;
            &&& run_happened(start, replies, snapshot_taken())
            &&& run_happened(start, replies, archive_made())
            &&& request.encryption_type is Openpgp ==> run_happened(
                start,
                replies,
                ciphertext_made(job.artifact),
            )
            &&& job.artifact == artifact_path(job)
            &&& match run_after(start, replies).stage {
                RunWait::Deliver(deliver) => {
                    &&& deliver.artifact == job.artifact
                    &&& deliver.targets == job.targets
                    &&& deliver.file_name == job.final_name()
                },
                RunWait::Upload(upload) => upload.artifact == job.artifact && upload.key
                    == job.key(),
                _ => true,
            }
        }),
{
    lemma_run_is_sound(request, process, replies);
    lemma_artifact(
        request,
        process,
        run_after(run_start(request, process), replies).job,
        progress(run_after(run_start(request, process), replies).stage),
    );
    lemma_work_happened(request, process, replies);
}

/// Where encryption was asked for, what is delivered and uploaded is the
/// ciphertext that the encryption made, and never the plaintext.
pub proof fn law_plaintext_is_never_delivered(
    request: Request,
    process: nat,
    replies: Seq<RunReply>,
)
    requires
        clocks_are_valid(replies),
        request.encryption_type is Openpgp,
    ensures
        match run_after(run_start(request, process), replies).stage {
            RunWait::Deliver(deliver) => run_happened(
                run_start(request, process),
                replies,
                ciphertext_made(deliver.artifact),
            ),
            RunWait::Upload(upload) => run_happened(
                run_start(request, process),
                replies,
                ciphertext_made(upload.artifact),
            ),
            _ => true,
        },
{
    lemma_run_is_sound(request, process, replies);
    lemma_work_happened(request, process, replies);
}

/// A run cleans up only after every delivery has succeeded.
pub proof fn law_cleanup_only_after_success(request: Request, process: nat, replies: Seq<RunReply>)
    requires
        clocks_are_valid(replies),
        cleans(run_after(run_start(request, process), replies).stage),
    ensures
        ({
            let start = run_start(request, process);
            let job = run_after(start, replies).job;
            &&& job.failures.len() == 0
            &&& job.delivered == places(job.targets, job.final_name())
            &&& job.targets.len() > 0 ==> run_happened(start, replies, delivered_locally())
            &&& job.s3 is Some ==> run_happened(start, replies, uploaded())
        }),
{
    lemma_run_is_sound(request, process, replies);
    lemma_work_happened(request, process, replies);
}

/// A run cleans up only where it has delivered: in its own targets and below its
/// own prefix, only archives of its own name, by its own period, and never those
/// that bear its own stamp.
pub proof fn law_cleanup_stays_within_the_run(
    request: Request,
    process: nat,
    replies: Seq<RunReply>,
)
    requires
        clocks_are_valid(replies),
    ensures
        ({
            let job = run_after(run_start(request, process), replies).job;
            match run_after(run_start(request, process), replies).stage {
                RunWait::CleanTarget(i, cleanup) => {
                    &&& 0 <= i < job.targets.len()
                    &&& cleanup.dir == job.targets[i]
                    &&& cleanup.name == request.name@
                    &&& cleanup.own_stamp == job.stamp
                    &&& cleanup.period == request.retention_period
                },
                RunWait::CleanBucket(prune) => {
                    &&& s3_target(request.targets@) matches Some(s3) && prune.bucket == s3.bucket@
                        && prune.prefix == s3.prefix@
                    &&& prune.name == request.name@
                    &&& prune.own_stamp == job.stamp
                    &&& prune.period == request.retention_period
                },
                _ => true,
            }
        }),
{
    lemma_run_is_sound(request, process, replies);
}

/// The first time that the clock told a run, if it has been read.
pub open spec fn start_of_run(start: RunState, replies: Seq<RunReply>) -> Option<int>
    decreases replies.len(),
{
    if replies.len() == 0 {
        None
    } else {
        let before = start_of_run(start, replies.drop_last());
        match (run_after(start, replies.drop_last()).stage, replies.last()) {
            (RunWait::ReadClock, RunReply::Clock(now)) => if before is None {
                Some(now@)
            } else {
                before
            },
            _ => before,
        }
    }
}

/// What holds of the stamp of a run.
spec fn stamped(start: RunState, replies: Seq<RunReply>) -> bool {
    let state = run_after(start, replies);
    let far = progress(state.stage);
    match start_of_run(start, replies) {
        Some(nanos) => state.job.stamp == stamp_text(nanos) && (far >= 2 || far == -1),
        None => far < 2,
    }
}

proof fn lemma_stamped(request: Request, process: nat, replies: Seq<RunReply>)
    requires
        clocks_are_valid(replies),
    ensures
        stamped(run_start(request, process), replies),
    decreases replies.len(),
{
    let start = run_start(request, process);
    if replies.len() > 0 {
        let earlier = replies.drop_last();
        let before = run_after(start, earlier);
        let reply = replies.last();
        lemma_clocks(replies);
        lemma_run_is_sound(request, process, earlier);
        lemma_stamped(request, process, earlier);
        lemma_run_step(request, process, before, reply);
        assert(run_after(start, replies) == before.next(reply));
    }
}

/// A run is stamped with the first time that the clock told it, and keeps that
/// stamp to its end, whatever it is replied: a run past the clock has one, and the
/// artifact's name, what is delivered and the object's key carry it.
pub proof fn law_stamp_is_the_start(request: Request, process: nat, replies: Seq<RunReply>)
    requires
        clocks_are_valid(replies),
    ensures
        ({
            let start = run_start(request, process);
            let state = run_after(start, replies);
            let job = state.job;
            &&& progress(state.stage) >= 2 ==> start_of_run(start, replies) is Some
            &&& start_of_run(start, replies) matches Some(nanos) ==> {
                let name = final_name_text(
                    archive_name_text(request.name@, stamp_text(nanos)),
                    request.encryption_type,
                );
                &&& job.stamp == stamp_text(nanos)
                &&& job.final_name() == name
                &&& state.stage matches RunWait::Deliver(deliver) ==> deliver.file_name == name
                &&& state.stage matches RunWait::Upload(upload) ==> upload.key == key_of(
                    job.s3->0.prefix@,
                    name,
                )
            }
        }),
{
    lemma_run_is_sound(request, process, replies);
    lemma_stamped(request, process, replies);
    let state = run_after(run_start(request, process), replies);
    if progress(state.stage) >= 2 {
        lemma_artifact(request, process, state.job, progress(state.stage));
    }
}

/// A run that failed has deleted nothing: it never came to clean up. And a run
/// that cleans up succeeds, whatever happens to the cleanup.
pub proof fn law_failed_run_deletes_nothing(request: Request, process: nat, replies: Seq<RunReply>)
    requires
        clocks_are_valid(replies),
        run_after(run_start(request, process), replies).stage matches RunWait::Done(Err(_)),
    ensures
        !run_happened(run_start(request, process), replies, cleanup_went_on()),
{
    lemma_work_happened(request, process, replies);
}

/// A run that succeeded reports one destination per target: the artifact in every
/// local directory, in the order in which they were first given, then the object.
pub proof fn law_success_reports_every_target(
    request: Request,
    process: nat,
    replies: Seq<RunReply>,
)
    requires
        clocks_are_valid(replies),
        run_after(run_start(request, process), replies).stage matches RunWait::Done(Ok(_)),
    ensures
        ({
            let job = run_after(run_start(request, process), replies).job;
            let list = run_after(run_start(request, process), replies).stage->Done_0->Ok_0;
            &&& list.len() == job.total()
            &&& forall|i: int|
                0 <= i < job.targets.len() ==> #[trigger] list[i] == Destination::Local(
                    child(job.targets[i], encode_utf8(job.final_name())),
                )
            &&& s3_target(request.targets@) matches Some(s3) ==> list.last() == Destination::S3 {
                bucket: s3.bucket@,
                key: key_of(s3.prefix@, job.final_name()),
            }
        }),
{
    lemma_run_is_sound(request, process, replies);
    let job = run_after(run_start(request, process), replies).job;
    let list = run_after(run_start(request, process), replies).stage->Done_0->Ok_0;
    assert forall|i: int| 0 <= i < job.targets.len() implies #[trigger] list[i]
        == Destination::Local(child(job.targets[i], encode_utf8(job.final_name()))) by {
        assert(job.delivered[i] == child(job.targets[i], encode_utf8(job.final_name())));
    }
}

/// The scratch directory goes with the run, whether it succeeded or failed, and
/// every intermediate with it.
pub proof fn law_scratch_is_removed(request: Request, process: nat, replies: Seq<RunReply>)
    requires
        clocks_are_valid(replies),
        ({
            let state = run_after(run_start(request, process), replies);
            state.stage is Done && state.job.scratch
        }),
    ensures
        run_happened(run_start(request, process), replies, scratch_dropped()),
{
    lemma_work_happened(request, process, replies);
}

/// The resolved paths of the local targets, in the order in which they were told.
pub open spec fn resolved_dirs(start: RunState, replies: Seq<RunReply>) -> Seq<Seq<u8>>
    decreases replies.len(),
{
    if replies.len() == 0 {
        Seq::empty()
    } else {
        let before = resolved_dirs(start, replies.drop_last());
        match (run_after(start, replies.drop_last()).stage, replies.last()) {
            (RunWait::ResolveTarget(_), RunReply::Resolved(Ok(path))) => before.push(path@),
            _ => before,
        }
    }
}

/// The places of `list`, each once, in the order in which they first occur.
pub open spec fn first_places(list: Seq<Seq<u8>>) -> Seq<Seq<u8>>
    decreases list.len(),
{
    if list.len() == 0 {
        Seq::empty()
    } else {
        with_place(first_places(list.drop_last()), list.last())
    }
}

proof fn lemma_first_places(list: Seq<Seq<u8>>, i: int)
    requires
        0 <= i < list.len(),
    ensures
        holds_place(first_places(list), list[i]),
    decreases list.len(),
{
    let before = first_places(list.drop_last());
    let whole = first_places(list);
    if i < list.len() - 1 {
        lemma_first_places(list.drop_last(), i);
        let k = choose|k: int| 0 <= k < before.len() && same_place(#[trigger] before[k], list[i]);
        assert(whole[k] == before[k]);
    } else if !holds_place(before, list[i]) {
        assert(same_place(whole[before.len() as int], list[i]));
    }
}

/// What holds of the local targets while they are resolved, and afterwards.
spec fn resolving(start: RunState, replies: Seq<RunReply>) -> bool {
    let state = run_after(start, replies);
    let told = resolved_dirs(start, replies);
    let far = progress(state.stage);
    &&& 0 <= far < 6 ==> told.len() == 0
    &&& far >= 6 ==> state.job.targets == first_places(told)
    &&& state.stage matches RunWait::CreateTarget(i) ==> told.len() == i
    &&& state.stage matches RunWait::ResolveTarget(i) ==> told.len() == i
    &&& far >= 7 ==> told.len() == state.job.dirs.len()
}

/// What one reply does to the local targets.
spec fn targets_advance(state: RunState, reply: RunReply) -> bool {
    let then = state.next(reply);
    let far = progress(state.stage);
    let further = progress(then.stage);
    match (state.stage, reply) {
        (RunWait::ResolveTarget(i), RunReply::Resolved(Ok(path))) => {
            &&& further >= 0 ==> then.job.targets == with_place(state.job.targets, path@)
                && then.job.dirs == state.job.dirs
            &&& then.stage matches RunWait::CreateTarget(j) ==> j == i + 1
            &&& !(then.stage is ResolveTarget)
            &&& further >= 0 ==> further >= 6
            &&& further >= 7 ==> i + 1 == then.job.dirs.len()
        },
        _ => {
            &&& far >= 6 && further >= 0 ==> then.job.targets == state.job.targets && then.job.dirs
                == state.job.dirs && further >= far
            &&& 0 <= far < 6 && further >= 6 ==> then.job.targets.len() == 0
            &&& far < 6 ==> !(then.stage is ResolveTarget)
            &&& far == 6 ==> further <= 6
            &&& 0 <= far < 6 && further >= 7 ==> then.job.dirs.len() == 0
            &&& then.stage matches RunWait::CreateTarget(j) ==> (state.stage
                == RunWait::CreateTarget(j) || (0 <= far < 6 && j == 0))
            &&& then.stage matches RunWait::ResolveTarget(j) ==> (state.stage
                == RunWait::CreateTarget(j) || state.stage == RunWait::ResolveTarget(j))
        },
    }
}

proof fn lemma_targets_before_creation(
    request: Request,
    process: nat,
    state: RunState,
    reply: RunReply,
)
    requires
        run_sound(request, process, state),
        2 <= progress(state.stage) < 6,
    ensures
        targets_advance(state, reply),
{
    let job = state.job;
    match state.stage {
        RunWait::ResolveSource => {
            reveal(JobState::after_resolve_source);
        },
        RunWait::ProbeSource => {
            reveal(JobState::after_probe_source);
            if reply == RunReply::Is(true) && s3_targets(request.targets@).len() <= 1 {
                let then = JobState {
                    dirs: local_dirs(request.targets@),
                    s3: s3_target(request.targets@),
                    ..job
                };
                lemma_to_foresight(request, process, then, 0);
            }
        },
        RunWait::ForeseeTarget(i, foresight) => {
            reveal(JobState::after_foresee_target);
            match reply {
                RunReply::Foreseen(reply) => {
                    match foresight.next(reply).stage {
                        ForeseeWait::Done(Ok(path)) => {
                            let then = JobState {
                                foreseen: with_place(job.foreseen, path),
                                ..job
                            };
                            lemma_to_foresight(request, process, then, i + 1);
                        },
                        _ => {},
                    }
                },
                _ => {},
            }
        },
        RunWait::CheckTargets(taken) => {
            reveal(JobState::after_check_targets);
            match reply {
                RunReply::Is(found) => {
                    lemma_to_check(request, process, job, taken.push(found));
                },
                _ => {},
            }
        },
        RunWait::Connect => {
            reveal(JobState::after_connect);
        },
        _ => {
            reveal(JobState::after_head_object);
            lemma_to_target(request, process, job, 0);
        },
    }
}

proof fn lemma_targets_advance(request: Request, process: nat, state: RunState, reply: RunReply)
    requires
        run_sound(request, process, state),
        0 <= progress(state.stage) <= 6,
    ensures
        targets_advance(state, reply),
{
    match state.stage {
        RunWait::ListKeys => {
            reveal(JobState::after_list_keys);
        },
        RunWait::ReadClock => {
            reveal(JobState::after_read_clock);
        },
        RunWait::CreateTarget(_) => {
            reveal(JobState::after_create_target);
        },
        RunWait::ResolveTarget(i) => {
            reveal(JobState::after_resolve_target);
            match reply {
                RunReply::Resolved(Ok(path)) => {
                    let job = state.job;
                    let then = JobState { targets: with_place(job.targets, path@), ..job };
                    lemma_with_place(job.targets, path@);
                    lemma_to_target(request, process, then, i + 1);
                },
                _ => {},
            }
        },
        _ => {
            lemma_targets_before_creation(request, process, state, reply);
        },
    }
}

proof fn lemma_resolving(request: Request, process: nat, replies: Seq<RunReply>)
    requires
        clocks_are_valid(replies),
    ensures
        resolving(run_start(request, process), replies),
    decreases replies.len(),
{
    let start = run_start(request, process);
    if replies.len() > 0 {
        let earlier = replies.drop_last();
        let before = run_after(start, earlier);
        let reply = replies.last();
        let state = run_after(start, replies);
        lemma_clocks(replies);
        lemma_run_is_sound(request, process, earlier);
        lemma_run_is_sound(request, process, replies);
        lemma_resolving(request, process, earlier);
        lemma_run_step(request, process, before, reply);
        assert(state == before.next(reply));
        let told = resolved_dirs(start, earlier);
        assert(told.push(reply->Resolved_0->Ok_0@).drop_last() == told);
        if 0 <= progress(before.stage) <= 6 {
            lemma_targets_advance(request, process, before, reply);
            if told.len() == 0 && state.job.targets.len() == 0 {
                assert(state.job.targets == first_places(told));
            }
        }
    }
}

/// A run serves the local directories that it was given, each place once, in the
/// order in which they were first given: two spellings of one directory count as
/// one.
pub proof fn law_directories_are_served_once(
    request: Request,
    process: nat,
    replies: Seq<RunReply>,
)
    requires
        clocks_are_valid(replies),
        works(run_after(run_start(request, process), replies).stage),
    ensures
        ({
            let start = run_start(request, process);
            let job = run_after(start, replies).job;
            let told = resolved_dirs(start, replies);
            &&& told.len() == local_dirs(request.targets@).len()
            &&& job.targets == first_places(told)
            &&& all_distinct(job.targets)
        }),
{
    lemma_run_is_sound(request, process, replies);
    lemma_resolving(request, process, replies);
}

/// Every local directory that a run was given is served.
pub proof fn law_every_directory_is_served(
    request: Request,
    process: nat,
    replies: Seq<RunReply>,
    i: int,
)
    requires
        clocks_are_valid(replies),
        works(run_after(run_start(request, process), replies).stage),
        0 <= i < local_dirs(request.targets@).len(),
    ensures
        ({
            let start = run_start(request, process);
            holds_place(run_after(start, replies).job.targets, resolved_dirs(start, replies)[i])
        }),
{
    law_directories_are_served_once(request, process, replies);
    lemma_first_places(resolved_dirs(run_start(request, process), replies), i);
}

/// Whether a foresight is one of `dir`, under way or over.
pub open spec fn foresees(dir: Seq<u8>, foresight: ForesightState) -> bool {
    exists|replies: Seq<Resolution>|
        foresight == #[trigger] foresight_after(foresight_start(dir), replies)
}

/// Whether `path` is what was foreseen of `dir`.
pub open spec fn is_foreseen(dir: Seq<u8>, path: Seq<u8>) -> bool {
    exists|foresight: ForesightState| #[trigger]
        foresees(dir, foresight) && foresight.stage == ForeseeWait::Done(Ok(path))
}

proof fn lemma_foresees_on(dir: Seq<u8>, foresight: ForesightState, reply: Resolution)
    requires
        foresees(dir, foresight),
    ensures
        foresees(dir, foresight.next(reply)),
{
    let replies = choose|replies: Seq<Resolution>|
        foresight == #[trigger] foresight_after(foresight_start(dir), replies);
    let more = replies.push(reply);
    assert(more.drop_last() == replies);
    assert(foresight.next(reply) == foresight_after(foresight_start(dir), more));
}

proof fn lemma_foresees_from(dir: Seq<u8>)
    ensures
        foresees(dir, foresight_start(dir)),
{
    let none = Seq::<Resolution>::empty();
    assert(foresight_start(dir) == foresight_after(foresight_start(dir), none));
}

/// What was foreseen of the local targets, in the order in which it was told.
pub open spec fn foreseen_dirs(start: RunState, replies: Seq<RunReply>) -> Seq<Seq<u8>>
    decreases replies.len(),
{
    if replies.len() == 0 {
        Seq::empty()
    } else {
        let before = foreseen_dirs(start, replies.drop_last());
        match (run_after(start, replies.drop_last()).stage, replies.last()) {
            (RunWait::ForeseeTarget(_, foresight), RunReply::Foreseen(reply)) => {
                match foresight.next(reply).stage {
                    ForeseeWait::Done(Ok(path)) => before.push(path),
                    _ => before,
                }
            },
            _ => before,
        }
    }
}

/// What holds of the local targets while they are foreseen, and afterwards.
spec fn foreseeing(start: RunState, replies: Seq<RunReply>) -> bool {
    let state = run_after(start, replies);
    let told = foreseen_dirs(start, replies);
    let far = progress(state.stage);
    &&& 0 <= far < 3 ==> told.len() == 0
    &&& far >= 3 ==> {
        &&& state.job.foreseen == first_places(told)
        &&& told.len() <= state.job.dirs.len()
        &&& forall|k: int|
            0 <= k < told.len() ==> is_foreseen(state.job.dirs[k], #[trigger] told[k])
    }
    &&& state.stage matches RunWait::ForeseeTarget(i, foresight) ==> told.len() == i && foresees(
        state.job.dirs[i],
        foresight,
    )
    &&& far >= 4 ==> told.len() == state.job.dirs.len()
}

/// What one reply does to the foreseen targets.
spec fn foresight_advances(state: RunState, reply: RunReply) -> bool {
    let then = state.next(reply);
    let far = progress(state.stage);
    let further = progress(then.stage);
    match (state.stage, reply) {
        (RunWait::ForeseeTarget(i, foresight), RunReply::Foreseen(reply)) => {
            match foresight.next(reply).stage {
                ForeseeWait::Done(Ok(path)) => {
                    &&& further >= 0 ==> then.job.foreseen == with_place(state.job.foreseen, path)
                        && then.job.dirs == state.job.dirs
                    &&& then.stage matches RunWait::ForeseeTarget(j, fresh) ==> j == i + 1 && fresh
                        == foresight_start(then.job.dirs[j])
                    &&& further >= 4 ==> i + 1 == then.job.dirs.len()
                },
                ForeseeWait::Done(Err(_)) => further == -1,
                _ => then == state.job.at(RunWait::ForeseeTarget(i, foresight.next(reply))),
            }
        },
        (RunWait::ForeseeTarget(_, _), _) => then == state,
        _ => {
            &&& 0 <= far < 3 && further >= 3 ==> then.job.foreseen.len() == 0
            &&& 0 <= far < 3 && further >= 4 ==> then.job.dirs.len() == 0
            &&& then.stage matches RunWait::ForeseeTarget(j, fresh) ==> j == 0 && fresh
                == foresight_start(then.job.dirs[0])
        },
    }
}

proof fn lemma_foresight_starts(request: Request, process: nat, job: JobState, i: int)
    requires
        job_sound(request, process, job, 3),
        0 <= i <= job.dirs.len(),
    ensures
        i < job.dirs.len() ==> job.to_foresight(i).stage == RunWait::ForeseeTarget(
            i,
            foresight_start(job.dirs[i]),
        ),
        i == job.dirs.len() ==> !(job.to_foresight(i).stage is ForeseeTarget),
{
    if i == job.dirs.len() && nesting_problem(job.source, job.foreseen) is None {
        lemma_to_check(request, process, job, Seq::empty());
        lemma_to_target(request, process, job, 0);
    }
}

proof fn lemma_foresight_advances(request: Request, process: nat, state: RunState, reply: RunReply)
    requires
        run_sound(request, process, state),
        0 <= progress(state.stage) <= 3,
    ensures
        foresight_advances(state, reply),
{
    let job = state.job;
    match state.stage {
        RunWait::ListKeys => {
            reveal(JobState::after_list_keys);
        },
        RunWait::ReadClock => {
            reveal(JobState::after_read_clock);
        },
        RunWait::ResolveSource => {
            reveal(JobState::after_resolve_source);
        },
        RunWait::ProbeSource => {
            reveal(JobState::after_probe_source);
            if reply == RunReply::Is(true) && s3_targets(request.targets@).len() <= 1 {
                let then = JobState {
                    dirs: local_dirs(request.targets@),
                    s3: s3_target(request.targets@),
                    ..job
                };
                lemma_to_foresight(request, process, then, 0);
                lemma_foresight_starts(request, process, then, 0);
            }
        },
        RunWait::ForeseeTarget(i, foresight) => {
            reveal(JobState::after_foresee_target);
            match reply {
                RunReply::Foreseen(reply) => {
                    match foresight.next(reply).stage {
                        ForeseeWait::Done(Ok(path)) => {
                            let then = JobState {
                                foreseen: with_place(job.foreseen, path),
                                ..job
                            };
                            lemma_to_foresight(request, process, then, i + 1);
                            lemma_foresight_starts(request, process, then, i + 1);
                        },
                        _ => {},
                    }
                },
                _ => {},
            }
        },
        _ => {},
    }
}

proof fn lemma_foreseeing(request: Request, process: nat, replies: Seq<RunReply>)
    requires
        clocks_are_valid(replies),
    ensures
        foreseeing(run_start(request, process), replies),
    decreases replies.len(),
{
    let start = run_start(request, process);
    if replies.len() > 0 {
        let earlier = replies.drop_last();
        let before = run_after(start, earlier);
        let reply = replies.last();
        let state = run_after(start, replies);
        lemma_clocks(replies);
        lemma_run_is_sound(request, process, earlier);
        lemma_run_is_sound(request, process, replies);
        lemma_foreseeing(request, process, earlier);
        lemma_run_step(request, process, before, reply);
        assert(state == before.next(reply));
        let told = foreseen_dirs(start, earlier);
        if 0 <= progress(before.stage) <= 3 {
            lemma_foresight_advances(request, process, before, reply);
            match (before.stage, reply) {
                (RunWait::ForeseeTarget(i, foresight), RunReply::Foreseen(reply)) => {
                    lemma_foresees_on(before.job.dirs[i], foresight, reply);
                    match foresight.next(reply).stage {
                        ForeseeWait::Done(Ok(path)) => {
                            assert(told.push(path).drop_last() == told);
                            assert(is_foreseen(before.job.dirs[i], path));
                            match state.stage {
                                RunWait::ForeseeTarget(j, _) => {
                                    lemma_foresees_from(state.job.dirs[j]);
                                },
                                _ => {},
                            }
                        },
                        _ => {},
                    }
                },
                _ => {
                    if told.len() == 0 && state.job.foreseen.len() == 0 {
                        assert(state.job.foreseen == first_places(told));
                    }
                    match state.stage {
                        RunWait::ForeseeTarget(j, _) => {
                            lemma_foresees_from(state.job.dirs[j]);
                        },
                        _ => {},
                    }
                },
            }
        }
    }
}

/// Every local directory that a run was given is foreseen before any is created:
/// when one is to be created, each has been followed from its path as given to
/// the place where it will lie, and those places are what was checked.
pub proof fn law_every_directory_is_foreseen(
    request: Request,
    process: nat,
    replies: Seq<RunReply>,
    i: int,
)
    requires
        clocks_are_valid(replies),
        run_after(run_start(request, process), replies).stage is CreateTarget,
        0 <= i < local_dirs(request.targets@).len(),
    ensures
        ({
            let start = run_start(request, process);
            let job = run_after(start, replies).job;
            let told = foreseen_dirs(start, replies);
            &&& told.len() == local_dirs(request.targets@).len()
            &&& job.foreseen == first_places(told)
            &&& is_foreseen(local_dirs(request.targets@)[i], told[i])
            &&& holds_place(job.foreseen, told[i])
        }),
{
    lemma_run_is_sound(request, process, replies);
    lemma_foreseeing(request, process, replies);
    lemma_first_places(foreseen_dirs(run_start(request, process), replies), i);
}

/// A run that is over stays so.
pub proof fn law_done_is_final(state: RunState, reply: RunReply)
    requires
        state.stage is Done,
    ensures
        state.next(reply) == state,
{
}

/// Whether what a run waits for has been set up for this very run, and has gone on
/// from there by nothing but the replies that it was given: the snapshot of its
/// source, the packaging of that snapshot and source, the encryption for its
/// recipients, the delivery to its targets, the upload to its key, and the cleanup
/// of what it serves.
pub open spec fn set_up_for_the_run(state: RunState) -> bool {
    let job = state.job;
    let name = job.request.name@;
    let period = job.request.retention_period;
    match state.stage {
        RunWait::Snapshot(backup) => exists|given: Seq<BackupReply>|
            backup == #[trigger] backup_after(backup_start(job.source, job.snapshot()), given),
        RunWait::Package(create) => exists|given: Seq<CreateReply>|
            create == #[trigger] create_after(
                create_start(job.work, job.archive_name(), job.snapshot(), job.source),
                given,
            ),
        RunWait::Encrypt(encrypt) => exists|given: Seq<EncryptReply>|
            encrypt == #[trigger] encrypt_after(
                encrypt_start(job.artifact, texts(job.request.recipients@)),
                given,
            ),
        RunWait::Deliver(deliver) => exists|given: Seq<DeliverReply>|
            deliver == #[trigger] deliver_after(
                deliver_start(job.artifact, job.targets, job.process),
                given,
            ),
        RunWait::Upload(upload) => exists|given: Seq<UploadReply>|
            upload == #[trigger] upload_after(upload_start(job.artifact, job.key()), given),
        RunWait::CleanTarget(i, cleanup) => exists|given: Seq<CleanupReply>|
            cleanup == #[trigger] cleanup_after(
                cleanup_start(job.targets[i], name, job.stamp, cleanup.now, period),
                given,
            ),
        RunWait::CleanBucket(prune) => job.s3 is Some && exists|given: Seq<PruneReply>|
            prune == #[trigger] prune_after(
                prune_start(
                    job.s3->0.bucket@,
                    job.s3->0.prefix@,
                    name,
                    job.stamp,
                    prune.now,
                    period,
                ),
                given,
            ),
        _ => true,
    }
}

/// One more reply takes a machine one step on.
proof fn lemma_one_more<S, R>(start: S, next: spec_fn(S, R) -> S, given: Seq<R>, reply: R)
    ensures
        after(start, next, given.push(reply)) == next(after(start, next, given), reply),
        after(start, next, Seq::<R>::empty()) == start,
{
    assert(given.push(reply).drop_last() == given);
}

proof fn lemma_cleanup_is_set_up(job: JobState, i: int, now: int)
    ensures
        set_up_for_the_run(job.to_cleanup(i, now)),
{
    let name = job.request.name@;
    let period = job.request.retention_period;
    let then = job.to_cleanup(i, now);
    if let RunWait::CleanTarget(_, cleanup) = then.stage {
        let none = Seq::<CleanupReply>::empty();
        assert(cleanup == cleanup_after(
            cleanup_start(job.targets[i], name, job.stamp, cleanup.now, period),
            none,
        ));
    }
    if let RunWait::CleanBucket(prune) = then.stage {
        let none = Seq::<PruneReply>::empty();
        assert(prune == prune_after(
            prune_start(
                job.s3->0.bucket@,
                job.s3->0.prefix@,
                name,
                job.stamp,
                prune.now,
                period,
            ),
            none,
        ));
    }
}

proof fn lemma_upload_is_set_up(job: JobState)
    ensures
        set_up_for_the_run(job.to_upload()),
{
    if job.s3 is Some {
        let start = upload_start(job.artifact, job.key());
        assert(start == upload_after(start, Seq::<UploadReply>::empty()));
    }
}

proof fn lemma_delivery_is_set_up(job: JobState, given: Seq<DeliverReply>)
    ensures
        ({
            let start = deliver_start(job.artifact, job.targets, job.process);
            set_up_for_the_run(job.delivering(deliver_after(start, given)))
        }),
{
    let start = deliver_start(job.artifact, job.targets, job.process);
    let deliver = deliver_after(start, given);
    match deliver.stage {
        DeliverWait::Done(Ok(list)) => {
            lemma_upload_is_set_up(JobState { delivered: list, ..job });
        },
        DeliverWait::Done(Err(chain)) => {
            lemma_upload_is_set_up(
                JobState { failures: job.failures.push(headline_of(chain)), ..job },
            );
        },
        _ => {},
    }
}

proof fn lemma_delivery_begins(job: JobState)
    ensures
        set_up_for_the_run(job.to_delivery()),
{
    lemma_upload_is_set_up(job);
    let start = deliver_start(job.artifact, job.targets, job.process);
    assert(start == deliver_after(start, Seq::<DeliverReply>::empty()));
    lemma_delivery_is_set_up(job, Seq::<DeliverReply>::empty());
}

proof fn lemma_encryption_is_set_up(job: JobState, given: Seq<EncryptReply>)
    ensures
        ({
            let start = encrypt_start(job.artifact, texts(job.request.recipients@));
            set_up_for_the_run(job.encrypting(encrypt_after(start, given)))
        }),
{
    let start = encrypt_start(job.artifact, texts(job.request.recipients@));
    let encrypt = encrypt_after(start, given);
    if let EncryptWait::Done(Ok(path)) = encrypt.stage {
        lemma_delivery_begins(JobState { artifact: path, ..job });
    }
}

proof fn lemma_scratch_stays_set_up(state: RunState, reply: RunReply)
    requires
        set_up_for_the_run(state),
        state.stage is MakeScratch,
    ensures
        set_up_for_the_run(state.next(reply)),
{
    reveal(JobState::after_make_scratch);
    let then = state.next(reply);
    if let RunWait::Snapshot(backup) = then.stage {
        assert(backup == backup_after(
            backup_start(then.job.source, then.job.snapshot()),
            Seq::<BackupReply>::empty(),
        ));
    }
}

proof fn lemma_snapshot_stays_set_up(state: RunState, reply: RunReply)
    requires
        set_up_for_the_run(state),
        state.stage is Snapshot,
    ensures
        set_up_for_the_run(state.next(reply)),
{
    let job = state.job;
    let backup = state.stage->Snapshot_0;
    reveal(JobState::after_snapshot);
    let start = backup_start(job.source, job.snapshot());
    let given = choose|given: Seq<BackupReply>|
        backup == #[trigger] backup_after(start, given);
    if let RunReply::Snapshot(reply) = reply {
        let next = |state: BackupState, reply: BackupReply| state.next(reply);
        lemma_one_more(start, next, given, reply);
        assert(backup.next(reply) == backup_after(start, given.push(reply)));
        let package = create_start(
            job.work,
            job.archive_name(),
            job.snapshot(),
            job.source,
        );
        assert(package == create_after(package, Seq::<CreateReply>::empty()));
    }
}

proof fn lemma_packaging_stays_set_up(state: RunState, reply: RunReply)
    requires
        set_up_for_the_run(state),
        state.stage is Package,
    ensures
        set_up_for_the_run(state.next(reply)),
{
    let job = state.job;
    let create = state.stage->Package_0;
    reveal(JobState::after_package);
    let start = create_start(job.work, job.archive_name(), job.snapshot(), job.source);
    let given = choose|given: Seq<CreateReply>|
        create == #[trigger] create_after(start, given);
    if let RunReply::Package(reply) = reply {
        let next = |state: CreateState, reply: CreateReply| state.next(reply);
        lemma_one_more(start, next, given, reply);
        assert(create.next(reply) == create_after(start, given.push(reply)));
    }
}

proof fn lemma_dropping_stays_set_up(state: RunState, reply: RunReply)
    requires
        set_up_for_the_run(state),
        state.stage is DropSnapshot,
    ensures
        set_up_for_the_run(state.next(reply)),
{
    let job = state.job;
    reveal(JobState::after_drop_snapshot);
    lemma_delivery_begins(job);
    let start = encrypt_start(job.artifact, texts(job.request.recipients@));
    assert(start == encrypt_after(start, Seq::<EncryptReply>::empty()));
    lemma_encryption_is_set_up(job, Seq::<EncryptReply>::empty());
}

proof fn lemma_encryption_stays_set_up(state: RunState, reply: RunReply)
    requires
        set_up_for_the_run(state),
        state.stage is Encrypt,
    ensures
        set_up_for_the_run(state.next(reply)),
{
    let job = state.job;
    let encrypt = state.stage->Encrypt_0;
    reveal(JobState::after_encrypt);
    let start = encrypt_start(job.artifact, texts(job.request.recipients@));
    let given = choose|given: Seq<EncryptReply>|
        encrypt == #[trigger] encrypt_after(start, given);
    if let RunReply::Encrypt(reply) = reply {
        let next = |state: EncryptState, reply: EncryptReply| state.next(reply);
        lemma_one_more(start, next, given, reply);
        assert(encrypt.next(reply) == encrypt_after(start, given.push(reply)));
        lemma_encryption_is_set_up(job, given.push(reply));
    }
}

proof fn lemma_delivery_stays_set_up(state: RunState, reply: RunReply)
    requires
        set_up_for_the_run(state),
        state.stage is Deliver,
    ensures
        set_up_for_the_run(state.next(reply)),
{
    let job = state.job;
    let deliver = state.stage->Deliver_0;
    reveal(JobState::after_deliver);
    let start = deliver_start(job.artifact, job.targets, job.process);
    let given = choose|given: Seq<DeliverReply>|
        deliver == #[trigger] deliver_after(start, given);
    if let RunReply::Deliver(reply) = reply {
        let next = |state: DeliverState, reply: DeliverReply| state.next(reply);
        lemma_one_more(start, next, given, reply);
        assert(deliver.next(reply) == deliver_after(start, given.push(reply)));
        lemma_delivery_is_set_up(job, given.push(reply));
    }
}

proof fn lemma_upload_stays_set_up(state: RunState, reply: RunReply)
    requires
        set_up_for_the_run(state),
        state.stage is Upload,
    ensures
        set_up_for_the_run(state.next(reply)),
{
    let job = state.job;
    let upload = state.stage->Upload_0;
    reveal(JobState::after_upload);
    let start = upload_start(job.artifact, job.key());
    let given = choose|given: Seq<UploadReply>|
        upload == #[trigger] upload_after(start, given);
    if let RunReply::Upload(reply) = reply {
        let next = |state: UploadState, reply: UploadReply| state.next(reply);
        lemma_one_more(start, next, given, reply);
        assert(upload.next(reply) == upload_after(start, given.push(reply)));
    }
}

proof fn lemma_clock_stays_set_up(state: RunState, reply: RunReply)
    requires
        set_up_for_the_run(state),
        state.stage is ReadClockAgain,
    ensures
        set_up_for_the_run(state.next(reply)),
{
    let job = state.job;
    reveal(JobState::after_read_clock_again);
    if let RunReply::Clock(now) = reply {
        lemma_cleanup_is_set_up(job, 0, now@);
    }
}

proof fn lemma_target_cleanup_stays_set_up(state: RunState, reply: RunReply)
    requires
        set_up_for_the_run(state),
        state.stage is CleanTarget,
    ensures
        set_up_for_the_run(state.next(reply)),
{
    let job = state.job;
    let name = job.request.name@;
    let period = job.request.retention_period;
    let i = state.stage->CleanTarget_0;
    let cleanup = state.stage->CleanTarget_1;
    reveal(JobState::after_clean_target);
    let start = cleanup_start(job.targets[i], name, job.stamp, cleanup.now, period);
    let given = choose|given: Seq<CleanupReply>|
        cleanup == #[trigger] cleanup_after(start, given);
    if let RunReply::CleanTarget(reply) = reply {
        let next = |state: CleanupState, reply: CleanupReply| state.next(reply);
        lemma_one_more(start, next, given, reply);
        lemma_cleanup_keeps(cleanup, reply);
        assert(cleanup.next(reply) == cleanup_after(start, given.push(reply)));
        lemma_cleanup_is_set_up(job, i + 1, cleanup.next(reply).now);
    }
}

proof fn lemma_bucket_cleanup_stays_set_up(state: RunState, reply: RunReply)
    requires
        set_up_for_the_run(state),
        state.stage is CleanBucket,
    ensures
        set_up_for_the_run(state.next(reply)),
{
    let job = state.job;
    let name = job.request.name@;
    let period = job.request.retention_period;
    let prune = state.stage->CleanBucket_0;
    reveal(JobState::after_clean_bucket);
    let start = prune_start(
        job.s3->0.bucket@,
        job.s3->0.prefix@,
        name,
        job.stamp,
        prune.now,
        period,
    );
    let given = choose|given: Seq<PruneReply>|
        prune == #[trigger] prune_after(start, given);
    if let RunReply::CleanBucket(reply) = reply {
        let next = |state: PruneState, reply: PruneReply| state.next(reply);
        lemma_one_more(start, next, given, reply);
        assert(prune.next(reply).now == prune.now);
        assert(prune.next(reply) == prune_after(start, given.push(reply)));
    }
}

proof fn lemma_ending_stays_set_up(state: RunState, reply: RunReply)
    requires
        set_up_for_the_run(state),
        state.stage is DropScratch,
    ensures
        set_up_for_the_run(state.next(reply)),
{
    reveal(JobState::after_drop_scratch);
}

proof fn lemma_set_up_step(request: Request, process: nat, state: RunState, reply: RunReply)
    requires
        run_sound(request, process, state),
        set_up_for_the_run(state),
        reply matches RunReply::Clock(now) ==> in_range(now@),
    ensures
        set_up_for_the_run(state.next(reply)),
{
    lemma_run_step(request, process, state, reply);
    match state.stage {
        RunWait::MakeScratch => lemma_scratch_stays_set_up(state, reply),
        RunWait::Snapshot(_) => lemma_snapshot_stays_set_up(state, reply),
        RunWait::Package(_) => lemma_packaging_stays_set_up(state, reply),
        RunWait::DropSnapshot => lemma_dropping_stays_set_up(state, reply),
        RunWait::Encrypt(_) => lemma_encryption_stays_set_up(state, reply),
        RunWait::Deliver(_) => lemma_delivery_stays_set_up(state, reply),
        RunWait::Upload(_) => lemma_upload_stays_set_up(state, reply),
        RunWait::ReadClockAgain => lemma_clock_stays_set_up(state, reply),
        RunWait::CleanTarget(_, _) => lemma_target_cleanup_stays_set_up(state, reply),
        RunWait::CleanBucket(_) => lemma_bucket_cleanup_stays_set_up(state, reply),
        RunWait::DropScratch(_) => lemma_ending_stays_set_up(state, reply),
        _ => {},
    }
}

/// Whatever a run waits for was set up for that very run, and what holds of a
/// snapshot, a packaging, an encryption, a delivery, an upload or a cleanup from its
/// beginning holds of the run's own.
pub proof fn law_every_step_is_the_runs_own(request: Request, process: nat, replies: Seq<RunReply>)
    requires
        clocks_are_valid(replies),
    ensures
        set_up_for_the_run(run_after(run_start(request, process), replies)),
    decreases replies.len(),
{
    if replies.len() > 0 {
        let earlier = replies.drop_last();
        let before = run_after(run_start(request, process), earlier);
        lemma_clocks(replies);
        law_every_step_is_the_runs_own(request, process, earlier);
        lemma_run_is_sound(request, process, earlier);
        lemma_set_up_step(request, process, before, replies.last());
    }
}

/// The clock was read for the cleanup, and told this moment.
pub open spec fn clock_told(now: int) -> spec_fn(RunState, RunReply) -> bool {
    |state: RunState, reply: RunReply|
        state.stage is ReadClockAgain && (reply matches RunReply::Clock(told) && told@ == now)
}

/// The cleanup of the `i`-th target came to its end.
pub open spec fn target_cleaned(i: int) -> spec_fn(RunState, RunReply) -> bool {
    |state: RunState, reply: RunReply|
        state.stage is CleanTarget && state.stage->CleanTarget_0 == i && reply is CleanTarget
            && state.stage->CleanTarget_1.next(reply->CleanTarget_0).stage is Done
}

/// The cleanup of the bucket came to its end.
pub open spec fn bucket_cleaned() -> spec_fn(RunState, RunReply) -> bool {
    |state: RunState, reply: RunReply|
        state.stage is CleanBucket && reply is CleanBucket && state.stage->CleanBucket_0.next(
            reply->CleanBucket_0,
        ).stage is Done
}

/// Whether a run has come to its success.
pub open spec fn succeeds(stage: RunWait) -> bool {
    ||| stage matches RunWait::DropScratch(Ok(_))
    ||| stage matches RunWait::Done(Ok(_))
}

/// How many targets have been cleaned up.
spec fn cleaned(state: RunState) -> int {
    match state.stage {
        RunWait::CleanTarget(i, _) => i,
        RunWait::CleanBucket(_) => state.job.targets.len() as int,
        RunWait::DropScratch(Ok(_)) => state.job.targets.len() as int,
        RunWait::Done(Ok(_)) => state.job.targets.len() as int,
        _ => 0,
    }
}

/// The moment for which a run cleans up.
spec fn cleanup_moment(stage: RunWait) -> Option<int> {
    match stage {
        RunWait::CleanTarget(_, cleanup) => Some(cleanup.now),
        RunWait::CleanBucket(prune) => Some(prune.now),
        _ => None,
    }
}

/// What one reply adds to the cleanup of a run.
spec fn cleaning_advances(state: RunState, reply: RunReply) -> bool {
    let then = state.next(reply);
    &&& forall|j: int|
        0 <= j < cleaned(then) ==> j < cleaned(state) || #[trigger] target_cleaned(j)(state, reply)
    &&& succeeds(then.stage) && then.job.s3 is Some ==> succeeds(state.stage) && state.job.s3
        is Some || bucket_cleaned()(state, reply)
    &&& cleanup_moment(then.stage) matches Some(now) ==> cleanup_moment(state.stage) == Some(now)
        || clock_told(now)(state, reply)
}

/// Before the cleanup a run neither cleans nor succeeds.
proof fn lemma_work_before_cleanup(state: RunState, reply: RunReply)
    requires
        8 <= progress(state.stage) < 13,
    ensures
        progress(state.next(reply).stage) < 16,
{
    match state.stage {
        RunWait::MakeScratch => {
            reveal(JobState::after_make_scratch);
        },
        RunWait::Snapshot(_) => {
            reveal(JobState::after_snapshot);
        },
        RunWait::Package(_) => {
            reveal(JobState::after_package);
        },
        RunWait::DropSnapshot => {
            reveal(JobState::after_drop_snapshot);
        },
        RunWait::Encrypt(_) => {
            reveal(JobState::after_encrypt);
        },
        _ => {},
    }
}

/// Nor does it while it delivers.
proof fn lemma_delivery_before_cleanup(state: RunState, reply: RunReply)
    requires
        13 <= progress(state.stage) < 15,
    ensures
        progress(state.next(reply).stage) < 16,
{
    match state.stage {
        RunWait::Deliver(_) => {
            reveal(JobState::after_deliver);
        },
        RunWait::Upload(_) => {
            reveal(JobState::after_upload);
        },
        _ => {},
    }
}

proof fn lemma_cleaning_step(request: Request, process: nat, state: RunState, reply: RunReply)
    requires
        run_sound(request, process, state),
        reply matches RunReply::Clock(now) ==> in_range(now@),
    ensures
        cleaning_advances(state, reply),
{
    lemma_run_step(request, process, state, reply);
    let far = progress(state.stage);
    if 8 <= far < 13 {
        lemma_work_before_cleanup(state, reply);
    } else if 13 <= far < 15 {
        lemma_delivery_before_cleanup(state, reply);
    } else if far >= 15 {
        lemma_cleanup_advances(request, process, state, reply);
    }
}

proof fn lemma_cleanup_advances(request: Request, process: nat, state: RunState, reply: RunReply)
    requires
        run_sound(request, process, state),
        progress(state.stage) >= 15,
    ensures
        cleaning_advances(state, reply),
{
    match state.stage {
        RunWait::ReadClockAgain => {
            reveal(JobState::after_read_clock_again);
        },
        RunWait::CleanTarget(_, cleanup) => {
            reveal(JobState::after_clean_target);
            if let RunReply::CleanTarget(reply) = reply {
                lemma_cleanup_keeps(cleanup, reply);
            }
        },
        RunWait::CleanBucket(_) => {
            reveal(JobState::after_clean_bucket);
        },
        RunWait::DropScratch(_) => {
            reveal(JobState::after_drop_scratch);
        },
        _ => {},
    }
}

proof fn lemma_cleaned(request: Request, process: nat, replies: Seq<RunReply>)
    requires
        clocks_are_valid(replies),
    ensures
        ({
            let start = run_start(request, process);
            let state = run_after(start, replies);
            &&& forall|j: int|
                0 <= j < cleaned(state) ==> run_happened(
                    start,
                    replies,
                    #[trigger] target_cleaned(j),
                )
            &&& succeeds(state.stage) && state.job.s3 is Some ==> run_happened(
                start,
                replies,
                bucket_cleaned(),
            )
            &&& cleanup_moment(state.stage) matches Some(now) ==> run_happened(
                start,
                replies,
                clock_told(now),
            )
        }),
    decreases replies.len(),
{
    let start = run_start(request, process);
    if replies.len() > 0 {
        let next = |state: RunState, reply: RunReply| state.next(reply);
        let earlier = replies.drop_last();
        let before = run_after(start, earlier);
        let state = run_after(start, replies);
        lemma_clocks(replies);
        lemma_cleaned(request, process, earlier);
        lemma_run_is_sound(request, process, earlier);
        lemma_cleaning_step(request, process, before, replies.last());
        lemma_happened(start, next, replies, bucket_cleaned());
        if let Some(now) = cleanup_moment(state.stage) {
            lemma_happened(start, next, replies, clock_told(now));
        }
        assert forall|j: int| 0 <= j < cleaned(state) implies run_happened(
            start,
            replies,
            #[trigger] target_cleaned(j),
        ) by {
            lemma_happened(start, next, replies, target_cleaned(j));
            if j >= cleaned(before) {
                assert(target_cleaned(j)(before, replies.last()));
            }
        }
    }
}

/// A run that succeeded has cleaned up each of its targets to the end, however
/// many, and the bucket where it has one.
pub proof fn law_success_means_cleaned_up_everywhere(
    request: Request,
    process: nat,
    replies: Seq<RunReply>,
    i: int,
)
    requires
        clocks_are_valid(replies),
        succeeds(run_after(run_start(request, process), replies).stage),
    ensures
        ({
            let start = run_start(request, process);
            let job = run_after(start, replies).job;
            &&& 0 <= i < job.targets.len() ==> run_happened(start, replies, target_cleaned(i))
            &&& job.s3 is Some ==> run_happened(start, replies, bucket_cleaned())
        }),
{
    lemma_cleaned(request, process, replies);
    let state = run_after(run_start(request, process), replies);
    if 0 <= i < state.job.targets.len() {
        assert(i < cleaned(state));
    }
}

/// Every target and the bucket are cleaned up for the moment that the clock told
/// after the last delivery.
pub proof fn law_cleanup_goes_by_the_clock(request: Request, process: nat, replies: Seq<RunReply>)
    requires
        clocks_are_valid(replies),
    ensures
        ({
            let start = run_start(request, process);
            let stage = run_after(start, replies).stage;
            &&& stage matches RunWait::CleanTarget(_, cleanup) ==> run_happened(
                start,
                replies,
                clock_told(cleanup.now),
            )
            &&& stage matches RunWait::CleanBucket(prune) ==> run_happened(
                start,
                replies,
                clock_told(prune.now),
            )
        }),
{
    lemma_cleaned(request, process, replies);
}

/// A run in which nothing is amiss goes on from its recipients to its targets: the
/// clock is read, its moment becomes the stamp, the source is resolved and looked
/// at, and every local directory is followed from the first on.
pub proof fn law_accepted_runs_come_to_their_targets(
    state: RunState,
    listing: Listing,
    now: Moment,
    path: FilePath,
)
    ensures
        ({
            let job = state.job;
            let dirs = local_dirs(job.request.targets@);
            let s3 = s3_target(job.request.targets@);
            &&& state.stage is ListKeys && recipients_problem(
                texts(job.request.recipients@),
                listing,
            ) is None ==> state.next(RunReply::Keys(listing)) == (RunState {
                job,
                stage: RunWait::ReadClock,
            })
            &&& state.stage is ReadClock ==> state.next(RunReply::Clock(now)) == (RunState {
                job: JobState { stamp: stamp_text(now@), ..job },
                stage: RunWait::ResolveSource,
            })
            &&& state.stage is ResolveSource ==> state.next(RunReply::Resolved(Ok(path))) == (
            RunState { job: JobState { source: path@, ..job }, stage: RunWait::ProbeSource })
            &&& state.stage is ProbeSource && s3_targets(job.request.targets@).len() <= 1
                && dirs.len() > 0 ==> state.next(RunReply::Is(true)) == (RunState {
                job: JobState { dirs, s3, ..job },
                stage: RunWait::ForeseeTarget(0, foresight_start(dirs[0])),
            })
            &&& state.stage is ProbeSource && s3 is Some && s3_targets(
                job.request.targets@,
            ).len() == 1 && dirs.len() == 0 && job.foreseen.len() == 0 ==> state.next(
                RunReply::Is(true),
            ) == (RunState { job: JobState { dirs, s3, ..job }, stage: RunWait::Connect })
        }),
{
    reveal(JobState::after_list_keys);
    reveal(JobState::after_read_clock);
    reveal(JobState::after_resolve_source);
    reveal(JobState::after_probe_source);
    let job = JobState {
        dirs: local_dirs(state.job.request.targets@),
        s3: s3_target(state.job.request.targets@),
        ..state.job
    };
    law_targets_in_the_way_are_refused(job.source, job.foreseen);
    if job.foreseen.len() == 0 {
        law_collisions_are_told_exactly(job.foreseen, Seq::empty(), job.final_name(), 0);
    }
}

/// Every local directory is followed in turn, whatever their number, and the places
/// where they will lie are looked at in turn, once none of them is in the source's
/// way.
pub proof fn law_targets_are_foreseen_in_turn(state: RunState, reply: Resolution, found: bool)
    ensures
        ({
            let job = state.job;
            &&& state.stage matches RunWait::ForeseeTarget(i, foresight) ==> 0 <= i
                < job.dirs.len() ==> {
                let then = state.next(RunReply::Foreseen(reply));
                match foresight.next(reply).stage {
                    ForeseeWait::Done(Ok(path)) => {
                        let more = JobState { foreseen: with_place(job.foreseen, path), ..job };
                        &&& i + 1 < job.dirs.len() ==> then == (RunState {
                            job: more,
                            stage: RunWait::ForeseeTarget(i + 1, foresight_start(job.dirs[i + 1])),
                        })
                        &&& i + 1 == job.dirs.len() && nesting_problem(
                            job.source,
                            more.foreseen,
                        ) is None ==> then == (RunState {
                            job: more,
                            stage: RunWait::CheckTargets(Seq::empty()),
                        })
                        &&& i + 1 == job.dirs.len() && nesting_problem(
                            job.source,
                            more.foreseen,
                        ) is Some ==> progress(then.stage) == -1
                    },
                    ForeseeWait::Done(Err(_)) => progress(then.stage) == -1,
                    _ => then == (RunState {
                        job,
                        stage: RunWait::ForeseeTarget(i, foresight.next(reply)),
                    }),
                }
            }
            &&& state.stage matches RunWait::CheckTargets(taken) ==> taken.len()
                < job.foreseen.len() ==> {
                let then = state.next(RunReply::Is(found));
                let told = taken.push(found);
                &&& told.len() < job.foreseen.len() ==> then == (RunState {
                    job,
                    stage: RunWait::CheckTargets(told),
                })
                &&& told.len() == job.foreseen.len() && (exists|k: int|
                    0 <= k < told.len() && #[trigger] told[k]) ==> progress(then.stage) == -1
                &&& told.len() == job.foreseen.len() && !(exists|k: int|
                    0 <= k < told.len() && #[trigger] told[k]) && job.s3 is Some ==> then == (
                RunState { job, stage: RunWait::Connect })
                &&& told.len() == job.foreseen.len() && !(exists|k: int|
                    0 <= k < told.len() && #[trigger] told[k]) && job.s3 is None && job.dirs.len()
                    > 0 ==> then == (RunState { job, stage: RunWait::CreateTarget(0) })
            }
        }),
{
    match state.stage {
        RunWait::ForeseeTarget(_, _) => {
            reveal(JobState::after_foresee_target);
        },
        RunWait::CheckTargets(_) => {
            reveal(JobState::after_check_targets);
        },
        _ => {},
    }
    let job = state.job;
    if let RunWait::CheckTargets(taken) = state.stage {
        let told = taken.push(found);
        if told.len() == job.foreseen.len() {
            law_collisions_are_told_exactly(job.foreseen, told, job.final_name(), 0);
        }
    }
}

/// Every local directory is created and resolved in turn, whatever their number,
/// once the object store was found not to hold the artifact; then the targets are
/// looked at once more, in turn, and the scratch directory is made.
pub proof fn law_targets_are_created_in_turn(
    state: RunState,
    path: FilePath,
    cause: Failure,
    found: bool,
)
    ensures
        ({
            let job = state.job;
            let done = RunReply::Did(Ok(()));
            &&& state.stage is Connect && job.s3 is Some ==> {
                &&& state.next(done) == (RunState { job, stage: RunWait::HeadObject })
                &&& progress(state.next(RunReply::Did(Err(cause))).stage) == -1
            }
            &&& state.stage is HeadObject && job.s3 is Some ==> {
                let then = state.next(RunReply::Head(Head::NotFound));
                &&& job.dirs.len() > 0 ==> then == (RunState {
                    job,
                    stage: RunWait::CreateTarget(0),
                })
                &&& job.dirs.len() == 0 && job.targets.len() == 0 ==> then == (RunState {
                    job,
                    stage: RunWait::MakeScratch,
                })
            }
            &&& state.stage matches RunWait::CreateTarget(i) ==> i < job.dirs.len() ==> {
                &&& state.next(done) == (RunState { job, stage: RunWait::ResolveTarget(i) })
                &&& progress(state.next(RunReply::Did(Err(cause))).stage) == -1
            }
            &&& state.stage matches RunWait::ResolveTarget(i) ==> i < job.dirs.len() ==> {
                let more = JobState { targets: with_place(job.targets, path@), ..job };
                let then = state.next(RunReply::Resolved(Ok(path)));
                let clash = nesting_problem(job.source, more.targets);
                &&& i + 1 < job.dirs.len() ==> then == (RunState {
                    job: more,
                    stage: RunWait::CreateTarget(i + 1),
                })
                &&& i + 1 == job.dirs.len() && clash is None ==> then == (RunState {
                    job: more,
                    stage: RunWait::RecheckTargets(Seq::empty()),
                })
                &&& i + 1 == job.dirs.len() && clash is Some ==> progress(then.stage) == -1
                &&& progress(state.next(RunReply::Resolved(Err(cause))).stage) == -1
            }
            &&& state.stage matches RunWait::RecheckTargets(taken) ==> taken.len()
                < job.targets.len() ==> {
                let then = state.next(RunReply::Is(found));
                let told = taken.push(found);
                &&& told.len() < job.targets.len() ==> then == (RunState {
                    job,
                    stage: RunWait::RecheckTargets(told),
                })
                &&& told.len() == job.targets.len() && (exists|k: int|
                    0 <= k < told.len() && #[trigger] told[k]) ==> progress(then.stage) == -1
                &&& told.len() == job.targets.len() && !(exists|k: int|
                    0 <= k < told.len() && #[trigger] told[k]) ==> then == (RunState {
                    job,
                    stage: RunWait::MakeScratch,
                })
            }
        }),
{
    match state.stage {
        RunWait::Connect => {
            reveal(JobState::after_connect);
        },
        RunWait::HeadObject => {
            reveal(JobState::after_head_object);
        },
        RunWait::CreateTarget(_) => {
            reveal(JobState::after_create_target);
        },
        RunWait::ResolveTarget(_) => {
            reveal(JobState::after_resolve_target);
        },
        RunWait::RecheckTargets(_) => {
            reveal(JobState::after_recheck_targets);
        },
        _ => {},
    }
    let job = state.job;
    law_targets_in_the_way_are_refused(job.source, job.targets);
    if job.targets.len() == 0 {
        law_collisions_are_told_exactly(job.targets, Seq::empty(), job.final_name(), 0);
    }
    if let RunWait::RecheckTargets(taken) = state.stage {
        let told = taken.push(found);
        if told.len() == job.targets.len() {
            law_collisions_are_told_exactly(job.targets, told, job.final_name(), 0);
        }
    }
}

/// The archive is made step by step: the snapshot of the source, then the archive
/// out of it; each step is given the replies that are meant for it, and begins when
/// the one before it has succeeded.
pub proof fn law_artifacts_are_made_in_turn(
    state: RunState,
    path: FilePath,
    to_snapshot: BackupReply,
    to_package: CreateReply,
)
    ensures
        ({
            let job = state.job;
            &&& state.stage is MakeScratch ==> {
                let made = JobState { scratch: true, work: path@, ..job };
                state.next(RunReply::Scratch(Ok(path))) == (RunState {
                    job: made,
                    stage: RunWait::Snapshot(backup_start(job.source, made.snapshot())),
                })
            }
            &&& state.stage matches RunWait::Snapshot(backup) ==> {
                let then = state.next(RunReply::Snapshot(to_snapshot));
                match backup.next(to_snapshot).stage {
                    BackupWait::Done(Ok(_)) => then == (RunState {
                        job,
                        stage: RunWait::Package(
                            create_start(job.work, job.archive_name(), job.snapshot(), job.source),
                        ),
                    }),
                    BackupWait::Done(Err(_)) => progress(then.stage) == -1,
                    _ => then == (RunState {
                        job,
                        stage: RunWait::Snapshot(backup.next(to_snapshot)),
                    }),
                }
            }
            &&& state.stage matches RunWait::Package(create) ==> {
                let then = state.next(RunReply::Package(to_package));
                match create.next(to_package).stage {
                    CreateWait::Done(Ok(archive)) => then == (RunState {
                        job: JobState { artifact: archive, ..job },
                        stage: RunWait::DropSnapshot,
                    }),
                    CreateWait::Done(Err(_)) => progress(then.stage) == -1,
                    _ => then == (RunState {
                        job,
                        stage: RunWait::Package(create.next(to_package)),
                    }),
                }
            }
        }),
{
    match state.stage {
        RunWait::MakeScratch => {
            reveal(JobState::after_make_scratch);
        },
        RunWait::Snapshot(_) => {
            reveal(JobState::after_snapshot);
        },
        RunWait::Package(_) => {
            reveal(JobState::after_package);
        },
        _ => {},
    }
}

/// Where encryption is asked for, it begins once the archive is made, with all the
/// recipients of the request, and is given the replies that are meant for it; what
/// it yields is the artifact, and its failure is the run's.
pub proof fn law_archives_are_encrypted_in_turn(state: RunState, to_encryption: EncryptReply)
    ensures
        ({
            let job = state.job;
            &&& state.stage is DropSnapshot && job.request.encryption_type is Openpgp ==> {
                let encrypt = encrypt_start(job.artifact, texts(job.request.recipients@));
                encrypt.stage is Gpg ==> state.next(RunReply::Dropped) == (RunState {
                    job,
                    stage: RunWait::Encrypt(encrypt),
                })
            }
            &&& state.stage matches RunWait::Encrypt(encrypt) ==> {
                let then = state.next(RunReply::Encrypt(to_encryption));
                match encrypt.next(to_encryption).stage {
                    EncryptWait::Done(Ok(ciphertext)) => {
                        let more = JobState { artifact: ciphertext, ..job };
                        let deliver = deliver_start(ciphertext, job.targets, job.process);
                        &&& job.targets.len() > 0 && !(deliver.stage is Done) ==> then == (
                        RunState { job: more, stage: RunWait::Deliver(deliver) })
                        &&& job.targets.len() == 0 && job.s3 is Some ==> then == (RunState {
                            job: more,
                            stage: RunWait::Upload(upload_start(ciphertext, job.key())),
                        })
                    },
                    EncryptWait::Done(Err(_)) => progress(then.stage) == -1,
                    _ => then == (RunState {
                        job,
                        stage: RunWait::Encrypt(encrypt.next(to_encryption)),
                    }),
                }
            }
        }),
{
    match state.stage {
        RunWait::DropSnapshot => {
            reveal(JobState::after_drop_snapshot);
        },
        RunWait::Encrypt(_) => {
            reveal(JobState::after_encrypt);
        },
        _ => {},
    }
}

/// Every local target is served, then the object store, whether or not the former
/// succeeded; what failed is kept, and only where nothing did is the clock read for
/// the cleanup.
pub proof fn law_targets_are_served_in_turn(
    state: RunState,
    to_delivery: DeliverReply,
    to_upload: UploadReply,
)
    ensures
        ({
            let job = state.job;
            &&& state.stage matches RunWait::Deliver(deliver) ==> {
                let then = state.next(RunReply::Deliver(to_delivery));
                match deliver.next(to_delivery).stage {
                    DeliverWait::Done(result) => {
                        let more = match result {
                            Ok(list) => JobState { delivered: list, ..job },
                            Err(chain) => JobState {
                                failures: job.failures.push(headline_of(chain)),
                                ..job
                            },
                        };
                        &&& job.s3 is Some ==> then == (RunState {
                            job: more,
                            stage: RunWait::Upload(upload_start(job.artifact, job.key())),
                        })
                        &&& job.s3 is None && more.failures.len() == 0 ==> then == (RunState {
                            job: more,
                            stage: RunWait::ReadClockAgain,
                        })
                        &&& job.s3 is None && more.failures.len() > 0 ==> progress(then.stage) == -1
                    },
                    _ => then == (RunState {
                        job,
                        stage: RunWait::Deliver(deliver.next(to_delivery)),
                    }),
                }
            }
            &&& state.stage matches RunWait::Upload(upload) ==> job.s3 is Some ==> {
                let then = state.next(RunReply::Upload(to_upload));
                match upload.next(to_upload).stage {
                    UploadWait::Done(Ok(_)) => if job.failures.len() == 0 {
                        then == (RunState { job, stage: RunWait::ReadClockAgain })
                    } else {
                        progress(then.stage) == -1
                    },
                    UploadWait::Done(Err(_)) => progress(then.stage) == -1
                        && then.job.failures.len() == job.failures.len() + 1,
                    _ => then == (RunState {
                        job,
                        stage: RunWait::Upload(upload.next(to_upload)),
                    }),
                }
            }
        }),
{
    match state.stage {
        RunWait::Deliver(_) => {
            reveal(JobState::after_deliver);
        },
        RunWait::Upload(_) => {
            reveal(JobState::after_upload);
        },
        _ => {},
    }
}

/// Once the artifact is ready, the local targets are served where there are any,
/// else the object store.
pub proof fn law_ready_artifacts_are_sent_out(state: RunState)
    requires
        state.stage is DropSnapshot,
        state.job.request.encryption_type is Plaintext,
    ensures
        ({
            let job = state.job;
            let then = state.next(RunReply::Dropped);
            let deliver = deliver_start(job.artifact, job.targets, job.process);
            &&& job.targets.len() > 0 && !(deliver.stage is Done) ==> then == (RunState {
                job,
                stage: RunWait::Deliver(deliver),
            })
            &&& job.targets.len() == 0 && job.s3 is Some ==> then == (RunState {
                job,
                stage: RunWait::Upload(upload_start(job.artifact, job.key())),
            })
        }),
{
    reveal(JobState::after_drop_snapshot);
}

/// Every target is cleaned up in turn, whatever their number, then the bucket, each
/// by the run's own name, stamp and period; and then the run has succeeded.
pub proof fn law_targets_are_cleaned_in_turn(
    state: RunState,
    now: Moment,
    to_cleanup: CleanupReply,
    to_prune: PruneReply,
)
    ensures
        ({
            let job = state.job;
            let name = job.request.name@;
            let period = job.request.retention_period;
            let over = |then: RunState|
                if job.scratch {
                    then == RunState { job, stage: RunWait::DropScratch(Ok(job.report())) }
                } else {
                    then == RunState { job, stage: RunWait::Done(Ok(job.report())) }
                };
            let behind_the_last = |then: RunState, now: int|
                match job.s3 {
                    Some(s3) => then == RunState {
                        job,
                        stage: RunWait::CleanBucket(
                            prune_start(s3.bucket@, s3.prefix@, name, job.stamp, now, period),
                        ),
                    },
                    None => over(then),
                };
            &&& state.stage is ReadClockAgain ==> {
                let then = state.next(RunReply::Clock(now));
                &&& job.targets.len() > 0 ==> then == (RunState {
                    job,
                    stage: RunWait::CleanTarget(
                        0,
                        cleanup_start(job.targets[0], name, job.stamp, now@, period),
                    ),
                })
                &&& job.targets.len() == 0 ==> behind_the_last(then, now@)
            }
            &&& state.stage matches RunWait::CleanTarget(i, cleanup) ==> i < job.targets.len()
                ==> {
                let then = state.next(RunReply::CleanTarget(to_cleanup));
                let further = cleanup.next(to_cleanup);
                &&& !(further.stage is Done) ==> then == (RunState {
                    job,
                    stage: RunWait::CleanTarget(i, further),
                })
                &&& further.stage is Done && i + 1 < job.targets.len() ==> then == (RunState {
                    job,
                    stage: RunWait::CleanTarget(
                        i + 1,
                        cleanup_start(job.targets[i + 1], name, job.stamp, cleanup.now, period),
                    ),
                })
                &&& further.stage is Done && i + 1 == job.targets.len() ==> behind_the_last(
                    then,
                    cleanup.now,
                )
            }
            &&& state.stage matches RunWait::CleanBucket(prune) ==> {
                let then = state.next(RunReply::CleanBucket(to_prune));
                let further = prune.next(to_prune);
                &&& further.stage is Done ==> over(then)
                &&& !(further.stage is Done) ==> then == (RunState {
                    job,
                    stage: RunWait::CleanBucket(further),
                })
            }
            &&& state.stage matches RunWait::DropScratch(result) ==> state.next(RunReply::Dropped)
                == (RunState { job, stage: RunWait::Done(result) })
        }),
{
    reveal(JobState::after_read_clock_again);
    reveal(JobState::after_clean_target);
    reveal(JobState::after_clean_bucket);
    reveal(JobState::after_drop_scratch);
    if let RunWait::CleanTarget(_, cleanup) = state.stage {
        lemma_cleanup_keeps(cleanup, to_cleanup);
    }
}

/// What a run that has failed tells, if it has failed.
pub open spec fn failure_of(stage: RunWait) -> Option<Seq<Seq<char>>> {
    match stage {
        RunWait::DropScratch(Err(chain)) => Some(chain),
        RunWait::Done(Err(chain)) => Some(chain),
        _ => None,
    }
}

/// Whether a run that has failed tells `cause` whole, within some context.
pub open spec fn fails_for(stage: RunWait, cause: Seq<Seq<char>>) -> bool {
    failure_of(stage) is Some && tells(failure_of(stage)->0, cause)
}

/// Recipients that are refused fail the run, with what is wrong with them; so does a
/// source that cannot be resolved, is no directory, or is asked into two buckets at
/// once.
pub proof fn law_failed_checks_tell_why(state: RunState, listing: Listing, cause: Failure)
    ensures
        ({
            let job = state.job;
            let problem = recipients_problem(texts(job.request.recipients@), listing);
            &&& state.stage is ListKeys && problem is Some ==> failure_of(
                state.next(RunReply::Keys(listing)).stage,
            ) == problem
            &&& state.stage is ResolveSource ==> fails_for(
                state.next(RunReply::Resolved(Err(cause))).stage,
                cause@,
            )
            &&& state.stage is ProbeSource ==> failure_of(state.next(RunReply::Is(false)).stage)
                is Some
            &&& state.stage is ProbeSource && s3_targets(job.request.targets@).len() > 1
                ==> failure_of(state.next(RunReply::Is(true)).stage) is Some
        }),
{
    match state.stage {
        RunWait::ListKeys => {
            reveal(JobState::after_list_keys);
        },
        RunWait::ResolveSource => {
            reveal(JobState::after_resolve_source);
        },
        RunWait::ProbeSource => {
            reveal(JobState::after_probe_source);
        },
        _ => {},
    }
}

/// An object store that cannot be reached or asked fails the run, and the cause is
/// told whole.
pub proof fn law_unreachable_stores_tell_why(state: RunState, cause: Failure)
    requires
        state.job.s3 is Some,
    ensures
        state.stage is Connect ==> fails_for(
            state.next(RunReply::Did(Err(cause))).stage,
            cause@,
        ),
        state.stage is HeadObject ==> fails_for(
            state.next(RunReply::Head(Head::Failed(cause))).stage,
            cause@,
        ) && fails_for(state.next(RunReply::Head(Head::NotAsked(cause))).stage, cause@),
{
    match state.stage {
        RunWait::Connect => {
            reveal(JobState::after_connect);
        },
        RunWait::HeadObject => {
            reveal(JobState::after_head_object);
        },
        _ => {},
    }
}

/// A directory that cannot be created or resolved fails the run, be it a target or
/// the scratch directory, and the cause is told whole.
pub proof fn law_failed_directories_tell_why(state: RunState, cause: Failure)
    ensures
        state.stage matches RunWait::CreateTarget(i) ==> i < state.job.dirs.len() ==> fails_for(
            state.next(RunReply::Did(Err(cause))).stage,
            cause@,
        ),
        state.stage matches RunWait::ResolveTarget(i) ==> i < state.job.dirs.len() ==> fails_for(
            state.next(RunReply::Resolved(Err(cause))).stage,
            cause@,
        ),
        state.stage is MakeScratch ==> fails_for(
            state.next(RunReply::Scratch(Err(cause))).stage,
            cause@,
        ),
{
    match state.stage {
        RunWait::CreateTarget(_) => {
            reveal(JobState::after_create_target);
        },
        RunWait::ResolveTarget(_) => {
            reveal(JobState::after_resolve_target);
        },
        RunWait::MakeScratch => {
            reveal(JobState::after_make_scratch);
        },
        _ => {},
    }
}

/// What fails while the artifact is made fails the run, and is told whole.
pub proof fn law_failed_work_tells_why(
    state: RunState,
    to_snapshot: BackupReply,
    to_package: CreateReply,
    to_encryption: EncryptReply,
)
    ensures
        state.stage matches RunWait::Snapshot(backup) ==> (backup.next(to_snapshot).stage matches
            BackupWait::Done(Err(chain)) ==> fails_for(
            state.next(RunReply::Snapshot(to_snapshot)).stage,
            chain,
        )),
        state.stage matches RunWait::Package(create) ==> (create.next(to_package).stage matches
            CreateWait::Done(Err(chain)) ==> failure_of(
            state.next(RunReply::Package(to_package)).stage,
        ) == Some(chain)),
        state.stage matches RunWait::Encrypt(encrypt) ==> (encrypt.next(
            to_encryption,
        ).stage matches EncryptWait::Done(Err(chain)) ==> failure_of(
            state.next(RunReply::Encrypt(to_encryption)).stage,
        ) == Some(chain)),
{
    match state.stage {
        RunWait::Snapshot(_) => {
            reveal(JobState::after_snapshot);
        },
        RunWait::Package(_) => {
            reveal(JobState::after_package);
        },
        RunWait::Encrypt(_) => {
            reveal(JobState::after_encrypt);
        },
        _ => {},
    }
}

/// A run whose deliveries have failed tells what failed: one failure as it is,
/// several summed up over all its targets.
pub proof fn law_failed_deliveries_are_told(job: JobState)
    ensures
        job.failures.len() == 0 ==> job.to_verdict() == (RunState {
            job,
            stage: RunWait::ReadClockAgain,
        }),
        job.failures.len() == 1 ==> failure_of(job.to_verdict().stage) == Some(
            seq![job.failures[0]],
        ),
        job.failures.len() > 1 ==> failure_of(job.to_verdict().stage) == Some(
            seq![
                failure_summary(
                    job.failures,
                    if job.s3 is Some {
                        job.targets.len() + 1
                    } else {
                        job.targets.len()
                    },
                ),
            ],
        ),
{
}

/// An upload that failed is told with the object's place and the whole chain of
/// causes, behind what had failed before.
pub proof fn law_failed_uploads_are_kept(state: RunState, to_upload: UploadReply)
    requires
        state.stage is Upload,
        state.job.s3 is Some,
    ensures
        state.stage->Upload_0.next(to_upload).stage matches UploadWait::Done(Err(chain))
            ==> state.next(RunReply::Upload(to_upload)).job.failures == state.job.failures.push(
            "s3://"@ + state.job.s3->0.bucket@ + "/"@ + state.job.key() + ": "@ + joined(
                chain,
                ": "@,
            ),
        ),
{
    reveal(JobState::after_upload);
}

} // verus!
