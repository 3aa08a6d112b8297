//! Delivery of the finished artifact to an S3-compatible object store: the keys,
//! the steps of an upload, and the cleanup of what has outlived its period.

use vstd::prelude::*;

use crate::calendar::{in_range, stamp_text, Moment, YEAR_ZERO_SECONDS};
use crate::config::{
    object_url, object_url_text, EncryptionType, RetentionPeriod, S3Addressing, S3Target,
};
use crate::failure::{headline_of, in_context, tells, Failure};
use crate::location::{
    is_plain_text, law_archives_are_found_behind_any_prefix, law_last_names_are_encoded_alone,
    law_objects_are_recognised_exactly, law_objects_of_other_names_are_left_alone,
    law_plain_names_are_recognised_alike, law_uploaded_archives_are_recognised,
    lemma_artifact_is_one_name, location, location_of, object_seconds, object_stamp,
};
use crate::naming::{
    archive_name_text, final_name_text, law_files_are_called_by_name_and_stamp, name_problem,
};
use crate::path::{about, shown, FilePath};
use crate::retention::{
    expired, is_archive_of, law_age_is_measured_in_hours_and_days, outlived, should_delete,
};
use crate::text::{
    after_last, decimal, number_text, segment_after_last, skip_leading, skip_trailing, starts_with,
    texts, trim_char, trimmed,
};
use crate::trace::{
    after, happened, happened_at, lemma_happened, lemma_happened_lately, lemma_nothing_happened,
};

verus! {

/// How much of the artifact is read at a time, in bytes.
pub const BLOCK_BYTES: usize = 8388608;

/// How many parts of an upload may be under way at once.
pub const PARTS_IN_FLIGHT: usize = 4;

/// Everything that a client of the object store is made from. Nothing is left to
/// a default.
#[derive(Debug)]
pub struct ClientSettings {
    pub region: String,
    pub access_key: String,
    pub secret_key: String,
    pub bucket: String,
    pub endpoint: String,
    /// The bucket is part of the host name, not of the path.
    pub virtual_hosted: bool,
    /// Plain HTTP is allowed.
    pub allow_http: bool,
}

/// What the client for `target` is made from: plain HTTP is allowed only where
/// the endpoint asks for it.
pub fn client(target: &S3Target) -> (r: ClientSettings)
    ensures
        r.region@ == target.region@,
        r.access_key@ == target.access_key@,
        r.secret_key@ == target.secret_key@,
        r.bucket@ == target.bucket@,
        r.endpoint@ == target.endpoint@,
        r.virtual_hosted == (target.addressing is VirtualHosted),
        r.allow_http == "http://"@.is_prefix_of(target.endpoint@),
{
    ClientSettings {
        region: target.region.clone(),
        access_key: target.access_key.clone(),
        secret_key: target.secret_key.clone(),
        bucket: target.bucket.clone(),
        endpoint: target.endpoint.clone(),
        virtual_hosted: match target.addressing {
            S3Addressing::VirtualHosted => true,
            S3Addressing::PathStyle => false,
        },
        allow_http: starts_with(target.endpoint.as_str(), "http://"),
    }
}

/// What a client that could not be made is reported as.
pub open spec fn client_problem(endpoint: Seq<char>, cause: Seq<Seq<char>>) -> Seq<Seq<char>> {
    in_context("build S3 client for endpoint '"@ + endpoint + "'"@, cause)
}

/// What a client that could not be made is reported as.
pub fn client_failure(target: &S3Target, cause: Failure) -> (r: Failure)
    ensures
        r@ == client_problem(target.endpoint@, cause@),
{
    let mut message = "build S3 client for endpoint '".to_string();
    message.append(target.endpoint.as_str());
    message.append("'");
    cause.context(message)
}

/// The key of `file_name` under `prefix`. The slashes at the prefix's ends do not
/// count, and an empty prefix is the bucket's root.
pub open spec fn key_of(prefix: Seq<char>, file_name: Seq<char>) -> Seq<char> {
    let inner = trimmed(prefix, '/');
    if inner.len() == 0 {
        file_name
    } else {
        inner + "/"@ + file_name
    }
}

/// The key of `file_name` under `prefix`.
pub fn join_prefix(prefix: &str, file_name: &str) -> (r: String)
    ensures
        r@ == key_of(prefix@, file_name@),
{
    let inner = trim_char(prefix, '/');
    if inner.as_str().is_empty() {
        file_name.to_string()
    } else {
        let mut key = inner;
        key.append("/");
        key.append(file_name);
        key
    }
}

/// What became of looking for an object.
#[derive(Debug)]
pub enum Head {
    /// It exists, and has this many bytes.
    Found(u64),
    /// It does not exist.
    NotFound,
    /// The store could not tell.
    Failed(Failure),
    /// The store could not be asked.
    NotAsked(Failure),
}

/// Why an upload to `key` is refused, if it is: only an object that is known not
/// to exist is free.
pub open spec fn object_problem(head: Head, key: Seq<char>) -> Option<Seq<Seq<char>>> {
    match head {
        Head::Found(bytes) => Some(
            seq![
                "s3 object "@ + key + " already exists ("@ + decimal(bytes as nat) + " bytes)"@,
            ],
        ),
        Head::NotFound => None,
        Head::Failed(cause) => Some(in_context("check s3 object "@ + key, cause@)),
        Head::NotAsked(cause) => Some(in_context("head object "@ + key, cause@)),
    }
}

/// Refuse an upload to a key that is taken, or of which it cannot be told.
pub fn ensure_object_free(head: Head, key: &str) -> (r: Result<(), Failure>)
    ensures
        match r {
            Ok(_) => object_problem(head, key@) is None,
            Err(failure) => object_problem(head, key@) == Some(failure@),
        },
{
    match head {
        Head::Found(bytes) => {
            let mut message = "s3 object ".to_string();
            message.append(key);
            message.append(" already exists (");
            message.append(number_text(bytes as u128).as_str());
            message.append(" bytes)");
            Err(Failure::new(message))
        },
        Head::NotFound => Ok(()),
        Head::Failed(cause) => {
            let mut message = "check s3 object ".to_string();
            message.append(key);
            Err(cause.context(message))
        },
        Head::NotAsked(cause) => {
            let mut message = "head object ".to_string();
            message.append(key);
            Err(cause.context(message))
        },
    }
}

/// Whether the object at a listed location is an archive of `name` that has
/// outlived `period`: it is judged by what follows the location's last slash.
pub open spec fn object_expired(
    listed: Seq<char>,
    name: Seq<char>,
    own_stamp: Seq<char>,
    now: int,
    period: RetentionPeriod,
) -> bool {
    match object_seconds(after_last(listed, '/'), name) {
        Some(seconds) => outlived(own_stamp, seconds * 1_000_000_000, now, period),
        None => false,
    }
}

/// Whether the object at a listed location is an archive of `name` that has
/// outlived `period`.
pub fn is_object_expired(
    listed: &str,
    name: &str,
    own_stamp: &str,
    now: &Moment,
    period: &RetentionPeriod,
) -> (r: bool)
    ensures
        r == object_expired(listed@, name@, own_stamp@, now@, *period),
{
    let segment = segment_after_last(listed, '/');
    match object_stamp(segment.as_str(), name) {
        Some(archived) => should_delete(own_stamp, &archived, now, period),
        None => false,
    }
}

/// The locations, out of those listed, of the archives of `name` that have
/// outlived `period`.
pub open spec fn doomed_keys(
    keys: Seq<Seq<char>>,
    name: Seq<char>,
    own_stamp: Seq<char>,
    now: int,
    period: RetentionPeriod,
) -> Seq<Seq<char>> {
    keys.filter(|key: Seq<char>| object_expired(key, name, own_stamp, now, period))
}

/// Which of the listed locations are to be deleted.
pub fn retention_keys_to_delete(
    now: &Moment,
    name: &str,
    own_stamp: &str,
    period: &RetentionPeriod,
    keys: &Vec<String>,
) -> (r: Vec<String>)
    ensures
        texts(r@) == doomed_keys(texts(keys@), name@, own_stamp@, now@, *period),
{
    let ghost all = texts(keys@);
    let ghost due = |key: Seq<char>| object_expired(key, name@, own_stamp@, now@, *period);
    let mut doomed: Vec<String> = Vec::new();
    proof {
        reveal(Seq::filter);
    }
    assert(all.take(0) == Seq::<Seq<char>>::empty());
    for i in 0..keys.len()
        invariant
            all == texts(keys@),
            due == (|key: Seq<char>| object_expired(key, name@, own_stamp@, now@, *period)),
            texts(doomed@) == all.take(i as int).filter(due),
    {
        let ghost before = texts(doomed@);
        assert(all.take(i + 1).drop_last() == all.take(i as int));
        assert(all[i as int] == keys@[i as int]@);
        proof {
            reveal(Seq::filter);
        }
        if is_object_expired(keys[i].as_str(), name, own_stamp, now, period) {
            doomed.push(keys[i].clone());
            assert(texts(doomed@) == before.push(all[i as int]));
        }
    }
    assert(all.take(all.len() as int) == all);
    doomed
}

/// Where a key lies under a prefix, its file name is encoded alone: the location
/// that the store lists for it ends in the location of the file name.
pub proof fn law_listed_names_stand_alone(prefix: Seq<char>, file_name: Seq<char>)
    requires
        !file_name.contains('/'),
        file_name.len() > 0,
    ensures
        after_last(location_of(key_of(prefix, file_name)), '/') == location_of(file_name),
{
    reveal_strlit("/");
    let inner = trimmed(prefix, '/');
    law_last_names_are_encoded_alone(inner, file_name);
    assert(inner + "/"@ + file_name == inner.push('/') + file_name);
}

/// What a run uploads, later runs of the same name recognise where the store lists
/// it, whatever the prefix and the characters of the name: it is deleted once it
/// has outlived the period, and not before.
pub proof fn law_uploaded_objects_are_recognised(
    prefix: Seq<char>,
    name: Seq<char>,
    nanos: int,
    encryption: EncryptionType,
    own_stamp: Seq<char>,
    now: int,
    period: RetentionPeriod,
)
    requires
        name_problem(name) is None,
        in_range(nanos),
        nanos >= YEAR_ZERO_SECONDS * 1_000_000_000,
    ensures
        ({
            let file = final_name_text(archive_name_text(name, stamp_text(nanos)), encryption);
            let listed = location_of(key_of(prefix, file));
            let start = nanos / 1_000_000_000 * 1_000_000_000;
            &&& object_seconds(after_last(listed, '/'), name) == Some(nanos / 1_000_000_000)
            &&& object_expired(listed, name, own_stamp, now, period) <==> outlived(
                own_stamp,
                start,
                now,
                period,
            )
        }),
{
    let file = final_name_text(archive_name_text(name, stamp_text(nanos)), encryption);
    law_uploaded_archives_are_recognised(name, nanos, encryption);
    lemma_artifact_is_one_name(name, nanos, encryption);
    law_listed_names_stand_alone(prefix, file);
}

/// The objects of another name are never deleted, whatever the prefix.
pub proof fn law_objects_of_other_names_never_expire(
    prefix: Seq<char>,
    own: Seq<char>,
    other: Seq<char>,
    nanos: int,
    encryption: EncryptionType,
    own_stamp: Seq<char>,
    now: int,
    period: RetentionPeriod,
)
    requires
        own != other,
        name_problem(other) is None,
        in_range(nanos),
        nanos >= YEAR_ZERO_SECONDS * 1_000_000_000,
    ensures
        ({
            let file = final_name_text(archive_name_text(other, stamp_text(nanos)), encryption);
            !object_expired(location_of(key_of(prefix, file)), own, own_stamp, now, period)
        }),
{
    let file = final_name_text(archive_name_text(other, stamp_text(nanos)), encryption);
    law_objects_of_other_names_are_left_alone(other, own, nanos, encryption);
    lemma_artifact_is_one_name(other, nanos, encryption);
    law_listed_names_stand_alone(prefix, file);
}

/// Listed locations are judged one by one: what is selected of two lists is what
/// is selected of each, in order and repeats included; selecting twice changes
/// nothing; and an unlimited period selects nothing.
pub proof fn law_locations_are_judged_one_by_one(
    some: Seq<Seq<char>>,
    more: Seq<Seq<char>>,
    name: Seq<char>,
    own_stamp: Seq<char>,
    now: int,
    period: RetentionPeriod,
)
    ensures
        doomed_keys(some + more, name, own_stamp, now, period) == doomed_keys(
            some,
            name,
            own_stamp,
            now,
            period,
        ) + doomed_keys(more, name, own_stamp, now, period),
        doomed_keys(
            doomed_keys(some, name, own_stamp, now, period),
            name,
            own_stamp,
            now,
            period,
        ) == doomed_keys(some, name, own_stamp, now, period),
        period is Unlimited ==> doomed_keys(some, name, own_stamp, now, period).len() == 0,
{
    let due = |key: Seq<char>| object_expired(key, name, own_stamp, now, period);
    Seq::filter_distributes_over_add(some, more, due);
    lemma_filter_twice(some, due);
    if period is Unlimited && some.filter(due).len() > 0 {
        some.lemma_filter_pred(due, 0);
    }
}

proof fn lemma_filter_twice(list: Seq<Seq<char>>, keep: spec_fn(Seq<char>) -> bool)
    ensures
        list.filter(keep).filter(keep) == list.filter(keep),
    decreases list.len(),
{
    reveal(Seq::filter);
    if list.len() > 0 {
        let rest = list.drop_last();
        lemma_filter_twice(rest, keep);
        if keep(list.last()) {
            assert(rest.filter(keep).push(list.last()).drop_last() == rest.filter(keep));
        }
    }
}

/// Of a name made of characters that stand for themselves, a listed location is
/// judged by the very rule for local files.
pub proof fn law_plain_names_are_judged_alike(
    listed: Seq<char>,
    name: Seq<char>,
    own_stamp: Seq<char>,
    now: int,
    period: RetentionPeriod,
)
    requires
        is_plain_text(name),
    ensures
        object_expired(listed, name, own_stamp, now, period) == expired(
            after_last(listed, '/'),
            name,
            own_stamp,
            now,
            period,
        ),
{
    law_plain_names_are_recognised_alike(after_last(listed, '/'), name);
}

proof fn lemma_skip_leading(s: Seq<char>, c: char)
    ensures
        skip_leading(seq![c] + s, c) == skip_leading(s, c),
{
    assert((seq![c] + s).drop_first() == s);
}

proof fn lemma_skip_trailing_keeps_front(s: Seq<char>, c: char)
    ensures
        trimmed(s.push(c), c) == trimmed(s, c),
    decreases s.len(),
{
    let longer = s.push(c);
    if s.len() > 0 && s[0] == c {
        assert(longer.drop_first() == s.drop_first().push(c));
        lemma_skip_trailing_keeps_front(s.drop_first(), c);
    } else if s.len() == 0 {
        assert(longer.drop_first() == s);
        assert(skip_leading(longer, c) == skip_leading(s, c));
    } else {
        assert(longer.drop_last() == s);
        assert(skip_leading(longer, c) == longer);
        assert(skip_trailing(longer, c) == skip_trailing(s, c));
    }
}

/// Slashes around a prefix make no difference: `weekly`, `weekly/` and `/weekly`
/// give the same keys, and `/` and the empty prefix both mean the bucket's root.
pub proof fn law_slashes_around_a_prefix_do_not_count(prefix: Seq<char>, file_name: Seq<char>)
    ensures
        key_of(prefix.push('/'), file_name) == key_of(prefix, file_name),
        key_of(seq!['/'] + prefix, file_name) == key_of(prefix, file_name),
        key_of(Seq::empty(), file_name) == file_name,
        key_of(seq!['/'], file_name) == file_name,
{
    lemma_skip_leading(prefix, '/');
    lemma_skip_trailing_keeps_front(prefix, '/');
    let empty = Seq::<char>::empty();
    assert(seq!['/'] == seq!['/'] + empty);
    lemma_skip_leading(empty, '/');
}

/// What an upload waits for.
#[derive(Debug)]
pub enum UploadStage {
    /// Look for the object once more: another run may have been faster.
    Head,
    /// Initiate the upload.
    Initiate,
    /// Open the artifact.
    Open,
    /// Read the next block of it.
    Read,
    /// Hand on the first bytes, this many, of the block, and wait until few
    /// enough parts are under way.
    Write(usize),
    /// Complete the upload.
    Finish,
    /// Abort the upload.
    Abort(Failure),
    /// The upload is over.
    Done(Result<(), Failure>),
}

/// What an upload waits for, in mathematical terms.
pub ghost enum UploadWait {
    Head,
    Initiate,
    Open,
    Read,
    Write(usize),
    Finish,
    Abort(Seq<Seq<char>>),
    Done(Result<(), Seq<Seq<char>>>),
}

impl View for UploadStage {
    type V = UploadWait;

    open spec fn view(&self) -> UploadWait {
        match *self {
            UploadStage::Head => UploadWait::Head,
            UploadStage::Initiate => UploadWait::Initiate,
            UploadStage::Open => UploadWait::Open,
            UploadStage::Read => UploadWait::Read,
            UploadStage::Write(count) => UploadWait::Write(count),
            UploadStage::Finish => UploadWait::Finish,
            UploadStage::Abort(failure) => UploadWait::Abort(failure@),
            UploadStage::Done(Ok(_)) => UploadWait::Done(Ok(())),
            UploadStage::Done(Err(failure)) => UploadWait::Done(Err(failure@)),
        }
    }
}

/// A reply to what an upload waited for.
#[derive(Debug)]
pub enum UploadReply {
    /// What became of looking for the object.
    Head(Head),
    /// The store could not be asked.
    NotAsked(Failure),
    /// What was asked was done, or failed.
    Did(Result<(), Failure>),
    /// This many bytes were read; none at the artifact's end.
    Read(Result<usize, Failure>),
    /// The upload was aborted, as far as it could be.
    Aborted,
}

/// The upload of an artifact.
#[derive(Debug)]
pub struct Upload {
    pub artifact: FilePath,
    pub key: String,
    pub stage: UploadStage,
}

/// The upload of an artifact, in mathematical terms.
pub ghost struct UploadState {
    pub artifact: Seq<u8>,
    pub key: Seq<char>,
    pub stage: UploadWait,
}

impl View for Upload {
    type V = UploadState;

    open spec fn view(&self) -> UploadState {
        UploadState { artifact: self.artifact@, key: self.key@, stage: self.stage@ }
    }
}

impl UploadState {
    pub open spec fn at(self, stage: UploadWait) -> UploadState {
        UploadState { stage, ..self }
    }

    pub open spec fn failed(self, chain: Seq<Seq<char>>) -> UploadState {
        self.at(UploadWait::Done(Err(chain)))
    }

    /// The upload after the reply to what it waited for. Any other reply leaves
    /// it waiting. Once blocks are being sent, a failure aborts the upload, so
    /// that the store keeps no orphaned parts.
    pub open spec fn next(self, reply: UploadReply) -> UploadState {
        match (self.stage, reply) {
            (UploadWait::Head, UploadReply::Head(head)) => match object_problem(head, self.key) {
                Some(chain) => self.failed(chain),
                None => self.at(UploadWait::Initiate),
            },
            (UploadWait::Initiate, UploadReply::NotAsked(cause)) => self.failed(cause@),
            (UploadWait::Initiate, UploadReply::Did(result)) => match result {
                Ok(_) => self.at(UploadWait::Open),
                Err(cause) => self.failed(in_context("initiate multipart upload"@, cause@)),
            },
            (UploadWait::Open, UploadReply::Did(result)) => match result {
                Ok(_) => self.at(UploadWait::Read),
                Err(cause) => self.failed(
                    in_context("open artifact "@ + shown(self.artifact), cause@),
                ),
            },
            (UploadWait::Read, UploadReply::Read(result)) => match result {
                Ok(count) => if count == 0 {
                    self.at(UploadWait::Finish)
                } else {
                    self.at(UploadWait::Write(count))
                },
                Err(cause) => self.at(
                    UploadWait::Abort(
                        in_context("read artifact "@ + shown(self.artifact), cause@),
                    ),
                ),
            },
            (UploadWait::Write(_), UploadReply::Did(result)) => match result {
                Ok(_) => self.at(UploadWait::Read),
                Err(cause) => self.at(
                    UploadWait::Abort(in_context("multipart upload backpressure"@, cause@)),
                ),
            },
            (UploadWait::Finish, UploadReply::Did(result)) => match result {
                Ok(_) => self.at(UploadWait::Done(Ok(()))),
                Err(cause) => self.failed(in_context("complete multipart upload"@, cause@)),
            },
            (UploadWait::Abort(chain), UploadReply::Aborted) => self.failed(chain),
            _ => self,
        }
    }
}

/// The upload at its beginning.
pub open spec fn upload_start(artifact: Seq<u8>, key: Seq<char>) -> UploadState {
    UploadState { artifact, key, stage: UploadWait::Head }
}

/// Begin to upload `artifact` to the object `key`.
pub fn upload(artifact: FilePath, key: String) -> (r: Upload)
    ensures
        r@ == upload_start(artifact@, key@),
{
    Upload { artifact, key, stage: UploadStage::Head }
}

impl Upload {
    /// Take the reply to what the upload waited for.
    pub fn resume(self, reply: UploadReply) -> (r: Upload)
        ensures
            r@ == self@.next(reply),
    {
        let Upload { artifact, key, stage } = self;
        let stage = match (stage, reply) {
            (UploadStage::Head, UploadReply::Head(head)) => match ensure_object_free(
                head,
                key.as_str(),
            ) {
                Err(failure) => UploadStage::Done(Err(failure)),
                Ok(_) => UploadStage::Initiate,
            },
            (UploadStage::Initiate, UploadReply::NotAsked(cause)) => UploadStage::Done(Err(cause)),
            (UploadStage::Initiate, UploadReply::Did(result)) => match result {
                Ok(_) => UploadStage::Open,
                Err(cause) => UploadStage::Done(
                    Err(cause.context("initiate multipart upload".to_string())),
                ),
            },
            (UploadStage::Open, UploadReply::Did(result)) => match result {
                Ok(_) => UploadStage::Read,
                Err(cause) => UploadStage::Done(
                    Err(cause.context(about("open artifact ", &artifact))),
                ),
            },
            (UploadStage::Read, UploadReply::Read(result)) => match result {
                Ok(count) => if count == 0 {
                    UploadStage::Finish
                } else {
                    UploadStage::Write(count)
                },
                Err(cause) => UploadStage::Abort(cause.context(about("read artifact ", &artifact))),
            },
            (UploadStage::Write(_), UploadReply::Did(result)) => match result {
                Ok(_) => UploadStage::Read,
                Err(cause) => UploadStage::Abort(
                    cause.context("multipart upload backpressure".to_string()),
                ),
            },
            (UploadStage::Finish, UploadReply::Did(result)) => match result {
                Ok(_) => UploadStage::Done(Ok(())),
                Err(cause) => UploadStage::Done(
                    Err(cause.context("complete multipart upload".to_string())),
                ),
            },
            (UploadStage::Abort(failure), UploadReply::Aborted) => UploadStage::Done(Err(failure)),
            (stage, _) => stage,
        };
        Upload { artifact, key, stage }
    }
}

/// The upload from `start` after `replies`.
pub open spec fn upload_after(start: UploadState, replies: Seq<UploadReply>) -> UploadState {
    after(start, |state: UploadState, reply: UploadReply| state.next(reply), replies)
}

/// Whether it happened in the course of `replies`.
pub open spec fn upload_happened(
    start: UploadState,
    replies: Seq<UploadReply>,
    what: spec_fn(UploadState, UploadReply) -> bool,
) -> bool {
    happened(start, |state: UploadState, reply: UploadReply| state.next(reply), replies, what)
}

/// The object was found to be free.
pub open spec fn object_was_free() -> spec_fn(UploadState, UploadReply) -> bool {
    |state: UploadState, reply: UploadReply|
        state.stage is Head && reply == UploadReply::Head(Head::NotFound)
}

/// The upload was initiated.
pub open spec fn upload_initiated() -> spec_fn(UploadState, UploadReply) -> bool {
    |state: UploadState, reply: UploadReply|
        state.stage is Initiate && reply matches UploadReply::Did(Ok(_))
}

/// The end of the artifact was read.
pub open spec fn end_reached() -> spec_fn(UploadState, UploadReply) -> bool {
    |state: UploadState, reply: UploadReply|
        state.stage is Read && reply == UploadReply::Read(Ok(0))
}

/// The upload was completed.
pub open spec fn upload_completed() -> spec_fn(UploadState, UploadReply) -> bool {
    |state: UploadState, reply: UploadReply|
        state.stage is Finish && reply matches UploadReply::Did(Ok(_))
}

/// Reading the artifact failed, or handing a block on did.
pub open spec fn sending_failed() -> spec_fn(UploadState, UploadReply) -> bool {
    |state: UploadState, reply: UploadReply|
        {
            ||| state.stage is Read && (reply matches UploadReply::Read(Err(_)))
            ||| state.stage is Write && (reply matches UploadReply::Did(Err(_)))
        }
}

/// The upload was aborted.
pub open spec fn upload_aborted() -> spec_fn(UploadState, UploadReply) -> bool {
    |state: UploadState, reply: UploadReply| state.stage is Abort && reply is Aborted
}

/// The sizes of the blocks that were read.
pub open spec fn blocks_read(start: UploadState, replies: Seq<UploadReply>) -> Seq<usize>
    decreases replies.len(),
{
    if replies.len() == 0 {
        Seq::empty()
    } else {
        let before = blocks_read(start, replies.drop_last());
        match (upload_after(start, replies.drop_last()).stage, replies.last()) {
            (UploadWait::Read, UploadReply::Read(Ok(count))) => if count > 0 {
                before.push(count)
            } else {
                before
            },
            _ => before,
        }
    }
}

/// The sizes of the blocks that were handed on.
pub open spec fn blocks_sent(start: UploadState, replies: Seq<UploadReply>) -> Seq<usize>
    decreases replies.len(),
{
    if replies.len() == 0 {
        Seq::empty()
    } else {
        let before = blocks_sent(start, replies.drop_last());
        match (upload_after(start, replies.drop_last()).stage, replies.last()) {
            (UploadWait::Write(count), UploadReply::Did(Ok(_))) => before.push(count),
            _ => before,
        }
    }
}

spec fn is_sending(stage: UploadWait) -> bool {
    stage is Read || stage is Write || stage is Finish || (stage matches UploadWait::Done(Ok(_)))
}

proof fn lemma_upload_history(start: UploadState, replies: Seq<UploadReply>)
    requires
        start.stage is Head,
    ensures
        ({
            let state = upload_after(start, replies);
            let stage = state.stage;
            &&& state == start.at(stage)
            &&& stage is Initiate || stage is Open || is_sending(stage) ==> upload_happened(
                start,
                replies,
                object_was_free(),
            )
            &&& stage is Open || is_sending(stage) ==> upload_happened(
                start,
                replies,
                upload_initiated(),
            )
            &&& stage is Finish || (stage matches UploadWait::Done(Ok(_))) ==> upload_happened(
                start,
                replies,
                end_reached(),
            )
            &&& stage matches UploadWait::Done(Ok(_)) ==> upload_happened(
                start,
                replies,
                upload_completed(),
            )
            &&& is_sending(stage) && !(stage is Write) ==> blocks_sent(start, replies)
                == blocks_read(start, replies)
            &&& stage matches UploadWait::Write(count) ==> blocks_sent(start, replies).push(count)
                == blocks_read(start, replies)
            &&& stage is Head || stage is Initiate || stage is Open ==> blocks_sent(
                start,
                replies,
            ).len() == 0 && blocks_read(start, replies).len() == 0
            &&& upload_happened(start, replies, sending_failed()) ==> stage is Abort || (
            stage matches UploadWait::Done(Err(_)) && upload_happened(
                start,
                replies,
                upload_aborted(),
            ))
        }),
    decreases replies.len(),
{
    let next = |state: UploadState, reply: UploadReply| state.next(reply);
    if replies.len() == 0 {
        lemma_nothing_happened(start, next, replies, sending_failed());
    } else {
        let before = upload_after(start, replies.drop_last());
        lemma_upload_history(start, replies.drop_last());
        lemma_happened(start, next, replies, object_was_free());
        lemma_happened(start, next, replies, upload_initiated());
        lemma_happened(start, next, replies, end_reached());
        lemma_happened(start, next, replies, upload_completed());
        lemma_happened(start, next, replies, upload_aborted());
        lemma_happened_lately(start, next, replies, sending_failed());
        match (before.stage, replies.last()) {
            (UploadWait::Open, UploadReply::Did(Ok(_))) => {
                assert(blocks_sent(start, replies) == blocks_read(start, replies));
            },
            _ => {},
        }
    }
}

/// An upload is completed only after the object was found to be free and every
/// block of the artifact, to its end, was read and handed on, in order.
pub proof fn law_upload_sends_every_block(start: UploadState, replies: Seq<UploadReply>)
    requires
        start.stage is Head,
        upload_after(start, replies).stage is Finish,
    ensures
        upload_happened(start, replies, object_was_free()),
        upload_happened(start, replies, upload_initiated()),
        upload_happened(start, replies, end_reached()),
        blocks_sent(start, replies) == blocks_read(start, replies),
{
    lemma_upload_history(start, replies);
}

/// An upload that succeeded was completed.
pub proof fn law_upload_success_means_completed(start: UploadState, replies: Seq<UploadReply>)
    requires
        start.stage is Head,
        upload_after(start, replies).stage matches UploadWait::Done(Ok(_)),
    ensures
        upload_happened(start, replies, object_was_free()),
        upload_happened(start, replies, end_reached()),
        upload_happened(start, replies, upload_completed()),
{
    lemma_upload_history(start, replies);
}

/// An upload that fails while blocks are being sent does not succeed, and is
/// aborted before it is over.
pub proof fn law_failed_sending_is_aborted(start: UploadState, replies: Seq<UploadReply>)
    requires
        start.stage is Head,
        upload_happened(start, replies, sending_failed()),
        upload_after(start, replies).stage is Done,
    ensures
        upload_after(start, replies).stage->Done_0 is Err,
        upload_happened(start, replies, upload_aborted()),
{
    lemma_upload_history(start, replies);
}

/// What the cleanup of a bucket waits for.
#[derive(Debug)]
pub enum PruneStage {
    /// List the objects one level below the prefix.
    List,
    /// Delete this one of the doomed objects.
    Delete(usize),
    /// Print a line, then go on with this one.
    Log(String, usize),
    /// The cleanup is over. It never fails.
    Done,
}

/// What the cleanup of a bucket waits for, in mathematical terms.
pub ghost enum PruneWait {
    List,
    Delete(int),
    Log(Seq<char>, int),
    Done,
}

impl View for PruneStage {
    type V = PruneWait;

    open spec fn view(&self) -> PruneWait {
        match *self {
            PruneStage::List => PruneWait::List,
            PruneStage::Delete(i) => PruneWait::Delete(i as int),
            PruneStage::Log(text, i) => PruneWait::Log(text@, i as int),
            PruneStage::Done => PruneWait::Done,
        }
    }
}

/// A reply to what the cleanup waited for.
#[derive(Debug)]
pub enum PruneReply {
    /// The locations that were listed.
    Listed(Result<Vec<String>, Failure>),
    /// The object was deleted, or not.
    Deleted(Result<(), Failure>),
    /// The line was printed.
    Logged,
}

/// The cleanup of a bucket.
#[derive(Debug)]
pub struct Prune {
    pub bucket: String,
    pub prefix: String,
    pub name: String,
    pub own_stamp: String,
    pub now: Moment,
    pub period: RetentionPeriod,
    /// The locations that are to go, as they were listed.
    pub doomed: Vec<String>,
    pub stage: PruneStage,
}

/// The cleanup of a bucket, in mathematical terms.
pub ghost struct PruneState {
    pub bucket: Seq<char>,
    pub prefix: Seq<char>,
    pub name: Seq<char>,
    pub own_stamp: Seq<char>,
    pub now: int,
    pub period: RetentionPeriod,
    pub doomed: Seq<Seq<char>>,
    pub stage: PruneWait,
}

impl View for Prune {
    type V = PruneState;

    open spec fn view(&self) -> PruneState {
        PruneState {
            bucket: self.bucket@,
            prefix: self.prefix@,
            name: self.name@,
            own_stamp: self.own_stamp@,
            now: self.now@,
            period: self.period,
            doomed: texts(self.doomed@),
            stage: self.stage@,
        }
    }
}

/// Where archives are listed: below the prefix, or in the whole bucket where
/// the prefix is empty.
pub open spec fn listing_scope(prefix: Seq<char>) -> Option<Seq<char>> {
    let inner = trimmed(prefix, '/');
    if inner.len() == 0 {
        None
    } else {
        Some(location_of(inner))
    }
}

/// Where archives are listed.
pub fn list_prefix(prefix: &str) -> (r: Option<String>)
    ensures
        match r {
            Some(scope) => listing_scope(prefix@) == Some(scope@),
            None => listing_scope(prefix@) is None,
        },
{
    let inner = trim_char(prefix, '/');
    if inner.as_str().is_empty() {
        None
    } else {
        Some(location(inner.as_str()))
    }
}

impl PruneState {
    /// How the place that is listed is shown.
    pub open spec fn shown_scope(self) -> Seq<char> {
        match listing_scope(self.prefix) {
            Some(scope) => "s3://"@ + self.bucket + "/"@ + scope,
            None => "s3://"@ + self.bucket,
        }
    }

    pub open spec fn at(self, stage: PruneWait) -> PruneState {
        PruneState { stage, ..self }
    }

    pub open spec fn onward(self, i: int) -> PruneState {
        if i < self.doomed.len() {
            self.at(PruneWait::Delete(i))
        } else {
            self.at(PruneWait::Done)
        }
    }

    /// The cleanup after the reply to what it waited for. Any other reply leaves
    /// it waiting. What fails is told, and the cleanup goes on.
    pub open spec fn next(self, reply: PruneReply) -> PruneState {
        match (self.stage, reply) {
            (PruneWait::List, PruneReply::Listed(result)) => match result {
                Ok(keys) => PruneState {
                    doomed: doomed_keys(
                        texts(keys@),
                        self.name,
                        self.own_stamp,
                        self.now,
                        self.period,
                    ),
                    ..self
                }.onward(0),
                Err(cause) => PruneState { doomed: Seq::empty(), ..self }.at(
                    PruneWait::Log(
                        "retention: cannot list "@ + self.shown_scope() + " for cleanup ("@
                            + headline_of(cause@) + "); leaving it unchanged"@,
                        0,
                    ),
                ),
            },
            (PruneWait::Delete(i), PruneReply::Deleted(result)) => if i >= self.doomed.len() {
                self
            } else {
                match result {
                    Ok(_) => self.at(
                        PruneWait::Log(
                            "retention: removed "@ + object_url(self.bucket, self.doomed[i]),
                            i + 1,
                        ),
                    ),
                    Err(cause) => self.at(
                        PruneWait::Log(
                            "retention: warning: cannot delete "@ + object_url(
                                self.bucket,
                                self.doomed[i],
                            ) + " ("@ + headline_of(cause@) + "); keeping it"@,
                            i + 1,
                        ),
                    ),
                }
            },
            (PruneWait::Log(_, i), PruneReply::Logged) => self.onward(i),
            _ => self,
        }
    }
}

/// The cleanup at its beginning.
pub open spec fn prune_start(
    bucket: Seq<char>,
    prefix: Seq<char>,
    name: Seq<char>,
    own_stamp: Seq<char>,
    now: int,
    period: RetentionPeriod,
) -> PruneState {
    PruneState {
        bucket,
        prefix,
        name,
        own_stamp,
        now,
        period,
        doomed: Seq::empty(),
        stage: PruneWait::List,
    }
}

/// Begin the cleanup of what lies in `bucket` directly below `prefix`: archives
/// of `name` that have outlived `period` at `now` are deleted, but for the one
/// that bears `own_stamp`.
pub fn cleanup_retention(
    bucket: String,
    prefix: String,
    name: String,
    own_stamp: String,
    now: Moment,
    period: RetentionPeriod,
) -> (r: Prune)
    ensures
        r@ == prune_start(bucket@, prefix@, name@, own_stamp@, now@, period),
{
    let prune = Prune {
        bucket,
        prefix,
        name,
        own_stamp,
        now,
        period,
        doomed: Vec::new(),
        stage: PruneStage::List,
    };
    assert(texts(prune.doomed@) == Seq::<Seq<char>>::empty());
    prune
}

impl Prune {
    /// The location that is to be deleted, exactly as it was listed, if that is what
    /// the cleanup waits for.
    pub fn doomed_key(&self) -> (r: Option<String>)
        ensures
            match self@.stage {
                PruneWait::Delete(i) => if i < self@.doomed.len() {
                    r is Some && r->0@ == self@.doomed[i]
                } else {
                    r is None
                },
                _ => r is None,
            },
    {
        match &self.stage {
            PruneStage::Delete(i) => if *i < self.doomed.len() {
                assert(texts(self.doomed@)[*i as int] == self.doomed@[*i as int]@);
                Some(self.doomed[*i].clone())
            } else {
                None
            },
            _ => None,
        }
    }

    fn at(self, stage: PruneStage) -> (r: Prune)
        ensures
            r@ == self@.at(stage@),
    {
        Prune {
            bucket: self.bucket,
            prefix: self.prefix,
            name: self.name,
            own_stamp: self.own_stamp,
            now: self.now,
            period: self.period,
            doomed: self.doomed,
            stage,
        }
    }

    fn with_doomed(self, doomed: Vec<String>) -> (r: Prune)
        ensures
            r@ == (PruneState { doomed: texts(doomed@), ..self@ }),
    {
        Prune {
            bucket: self.bucket,
            prefix: self.prefix,
            name: self.name,
            own_stamp: self.own_stamp,
            now: self.now,
            period: self.period,
            doomed,
            stage: self.stage,
        }
    }

    fn onward(self, i: usize) -> (r: Prune)
        ensures
            r@ == self@.onward(i as int),
    {
        if i < self.doomed.len() {
            self.at(PruneStage::Delete(i))
        } else {
            self.at(PruneStage::Done)
        }
    }

    fn shown_scope(&self) -> (r: String)
        ensures
            r@ == self@.shown_scope(),
    {
        match list_prefix(self.prefix.as_str()) {
            Some(scope) => object_url_text(self.bucket.as_str(), scope.as_str()),
            None => {
                let mut text = "s3://".to_string();
                text.append(self.bucket.as_str());
                text
            },
        }
    }

    /// Take the reply to what the cleanup waited for.
    pub fn resume(self, reply: PruneReply) -> (r: Prune)
        ensures
            r@ == self@.next(reply),
    {
        let Prune { bucket, prefix, name, own_stamp, now, period, doomed, stage } = self;
        let idle = Prune {
            bucket,
            prefix,
            name,
            own_stamp,
            now,
            period,
            doomed,
            stage: PruneStage::Done,
        };
        match (stage, reply) {
            (PruneStage::List, PruneReply::Listed(result)) => match result {
                Ok(keys) => {
                    let doomed = retention_keys_to_delete(
                        &idle.now,
                        idle.name.as_str(),
                        idle.own_stamp.as_str(),
                        &idle.period,
                        &keys,
                    );
                    idle.with_doomed(doomed).onward(0)
                },
                Err(cause) => {
                    let mut text = "retention: cannot list ".to_string();
                    text.append(idle.shown_scope().as_str());
                    text.append(" for cleanup (");
                    text.append(cause.headline().as_str());
                    text.append("); leaving it unchanged");
                    let none: Vec<String> = Vec::new();
                    assert(texts(none@) == Seq::<Seq<char>>::empty());
                    idle.with_doomed(none).at(PruneStage::Log(text, 0))
                },
            },
            (PruneStage::Delete(i), PruneReply::Deleted(result)) => if i >= idle.doomed.len() {
                idle.at(PruneStage::Delete(i))
            } else {
                assert(texts(idle.doomed@)[i as int] == idle.doomed@[i as int]@);
                let url = object_url_text(idle.bucket.as_str(), idle.doomed[i].as_str());
                let text = match result {
                    Ok(_) => {
                        let mut text = "retention: removed ".to_string();
                        text.append(url.as_str());
                        text
                    },
                    Err(cause) => {
                        let mut text = "retention: warning: cannot delete ".to_string();
                        text.append(url.as_str());
                        text.append(" (");
                        text.append(cause.headline().as_str());
                        text.append("); keeping it");
                        text
                    },
                };
                idle.at(PruneStage::Log(text, i + 1))
            },
            (PruneStage::Log(_, i), PruneReply::Logged) => idle.onward(i),
            (stage, _) => idle.at(stage),
        }
    }
}

/// The cleanup from `start` after `replies`.
pub open spec fn prune_after(start: PruneState, replies: Seq<PruneReply>) -> PruneState {
    after(start, |state: PruneState, reply: PruneReply| state.next(reply), replies)
}

/// Whether it happened in the course of `replies`.
pub open spec fn prune_happened(
    start: PruneState,
    replies: Seq<PruneReply>,
    what: spec_fn(PruneState, PruneReply) -> bool,
) -> bool {
    happened(start, |state: PruneState, reply: PruneReply| state.next(reply), replies, what)
}

/// The deletion of the `i`-th doomed object was asked for, and answered.
pub open spec fn deletion_tried(i: int) -> spec_fn(PruneState, PruneReply) -> bool {
    |state: PruneState, reply: PruneReply|
        state.stage == PruneWait::Delete(i) && reply is Deleted
}

/// The keys were listed, and these are doomed.
pub open spec fn keys_listed(doomed: Seq<Seq<char>>) -> spec_fn(PruneState, PruneReply) -> bool {
    |state: PruneState, reply: PruneReply|
        state.stage is List && (reply matches PruneReply::Listed(Ok(keys)) && doomed == doomed_keys(
            texts(keys@),
            state.name,
            state.own_stamp,
            state.now,
            state.period,
        ))
}

spec fn prune_reached(state: PruneState) -> int {
    match state.stage {
        PruneWait::List => 0,
        PruneWait::Delete(i) => i,
        PruneWait::Log(_, i) => i,
        PruneWait::Done => state.doomed.len() as int,
    }
}

proof fn lemma_prune_history(start: PruneState, replies: Seq<PruneReply>)
    requires
        start.stage is List,
        start.doomed.len() == 0,
    ensures
        ({
            let state = prune_after(start, replies);
            &&& state == PruneState { doomed: state.doomed, stage: state.stage, ..start }
            &&& state.stage is List ==> state.doomed.len() == 0
            &&& 0 <= prune_reached(state) <= state.doomed.len()
            &&& state.stage is Delete ==> prune_reached(state) < state.doomed.len()
            &&& state.doomed.len() > 0 ==> prune_happened(
                start,
                replies,
                keys_listed(state.doomed),
            )
            &&& forall|j: int|
                0 <= j < prune_reached(state) ==> prune_happened(
                    start,
                    replies,
                    #[trigger] deletion_tried(j),
                )
        }),
    decreases replies.len(),
{
    if replies.len() > 0 {
        let next = |state: PruneState, reply: PruneReply| state.next(reply);
        let before = prune_after(start, replies.drop_last());
        let reply = replies.last();
        let state = before.next(reply);
        lemma_prune_history(start, replies.drop_last());
        lemma_happened(start, next, replies, keys_listed(state.doomed));
        assert forall|j: int| 0 <= j < prune_reached(state) implies prune_happened(
            start,
            replies,
            #[trigger] deletion_tried(j),
        ) by {
            lemma_happened(start, next, replies, deletion_tried(j));
            if j >= prune_reached(before) {
                assert(deletion_tried(j)(before, reply));
            }
        }
    }
}

/// The cleanup deletes nothing but what was listed, and of that only
/// archives of the run's name that have outlived the period.
pub proof fn law_only_expired_objects_are_deleted(
    start: PruneState,
    replies: Seq<PruneReply>,
    i: int,
)
    requires
        start.stage is List,
        start.doomed.len() == 0,
        prune_after(start, replies).stage == PruneWait::Delete(i),
    ensures
        ({
            let doomed = prune_after(start, replies).doomed;
            &&& 0 <= i < doomed.len()
            &&& prune_happened(start, replies, keys_listed(doomed))
            &&& object_expired(
                doomed[i],
                start.name,
                start.own_stamp,
                start.now,
                start.period,
            )
        }),
{
    lemma_prune_history(start, replies);
    let next = |state: PruneState, reply: PruneReply| state.next(reply);
    let doomed = prune_after(start, replies).doomed;
    let what = keys_listed(doomed);
    let k = choose|k: int| #[trigger] happened_at(start, next, replies, what, k);
    let then = prune_after(start, replies.take(k));
    lemma_prune_history(start, replies.take(k));
    let keys = replies[k]->Listed_0->Ok_0;
    let due = |key: Seq<char>|
        object_expired(key, start.name, start.own_stamp, start.now, start.period);
    assert(doomed == texts(keys@).filter(due));
    texts(keys@).lemma_filter_pred(due, i);
}

/// A cleanup that is over has tried to delete every doomed object, whatever
/// failed on the way.
pub proof fn law_prune_misses_nothing(start: PruneState, replies: Seq<PruneReply>, i: int)
    requires
        start.stage is List,
        start.doomed.len() == 0,
        prune_after(start, replies).stage is Done,
        0 <= i < prune_after(start, replies).doomed.len(),
    ensures
        prune_happened(start, replies, deletion_tried(i)),
{
    lemma_prune_history(start, replies);
    assert(i < prune_reached(prune_after(start, replies)));
}

/// The key of a file under a prefix that neither begins nor ends with a slash is the
/// prefix, a slash and the file's name, and the objects are listed below the
/// location of that very prefix; without a prefix the key is the file's name, and
/// the whole bucket is listed.
pub proof fn law_keys_lie_below_the_prefix(prefix: Seq<char>, file_name: Seq<char>)
    ensures
        prefix.len() > 0 && prefix[0] != '/' && prefix.last() != '/' ==> {
            &&& key_of(prefix, file_name) == prefix + seq!['/'] + file_name
            &&& listing_scope(prefix) == Some(location_of(prefix))
        },
        prefix.len() == 0 ==> key_of(prefix, file_name) == file_name && listing_scope(
            prefix,
        ) is None,
        listing_scope(prefix.push('/')) == listing_scope(prefix),
        listing_scope(seq!['/'] + prefix) == listing_scope(prefix),
{
    reveal_strlit("/");
    assert("/"@ == seq!['/']);
    lemma_skip_leading(prefix, '/');
    lemma_skip_trailing_keeps_front(prefix, '/');
}

/// Only an object that is known not to exist is free.
pub proof fn law_only_missing_objects_are_free(head: Head, key: Seq<char>)
    ensures
        object_problem(head, key) is None <==> head == Head::NotFound,
{
}

/// An upload whose every step succeeds goes on to its end: a block that was read,
/// of whatever size, is handed on, then the next is read, and at the artifact's end
/// the upload is completed. The artifact and the key stay the same throughout.
pub proof fn law_successful_uploads_go_on(state: UploadState, count: usize, reply: UploadReply)
    ensures
        state.stage is Head ==> state.next(UploadReply::Head(Head::NotFound)).stage is Initiate,
        state.stage is Initiate ==> state.next(UploadReply::Did(Ok(()))).stage is Open,
        state.stage is Open ==> state.next(UploadReply::Did(Ok(()))).stage is Read,
        state.stage is Read && count > 0 ==> state.next(UploadReply::Read(Ok(count))).stage
            == UploadWait::Write(count),
        state.stage is Read ==> state.next(UploadReply::Read(Ok(0))).stage is Finish,
        state.stage is Write ==> state.next(UploadReply::Did(Ok(()))).stage is Read,
        state.stage is Finish ==> (state.next(UploadReply::Did(Ok(()))).stage matches
            UploadWait::Done(Ok(_))),
        state.next(reply).key == state.key,
        state.next(reply).artifact == state.artifact,
        state.stage is Done ==> state.next(reply) == state,
{
}

/// The objects were listed, and these are their locations.
pub open spec fn were_listed(keys: Seq<String>) -> spec_fn(PruneState, PruneReply) -> bool {
    |state: PruneState, reply: PruneReply|
        state.stage is List && (reply matches PruneReply::Listed(Ok(list)) && list@ == keys)
}

/// The objects were listed, and one of them lies at `key`.
pub open spec fn key_was_listed(key: Seq<char>) -> spec_fn(PruneState, PruneReply) -> bool {
    |state: PruneState, reply: PruneReply|
        state.stage is List && (reply matches PruneReply::Listed(Ok(list)) && exists|j: int|
            0 <= j < list@.len() && (#[trigger] list@[j])@ == key)
}

/// The deletion of the object at `key` was asked for, and answered.
pub open spec fn deletion_of(key: Seq<char>) -> spec_fn(PruneState, PruneReply) -> bool {
    |state: PruneState, reply: PruneReply|
        {
            &&& state.stage matches PruneWait::Delete(i) && 0 <= i < state.doomed.len()
                && state.doomed[i] == key
            &&& reply is Deleted
        }
}

/// Once the objects have been listed, the doomed ones are settled.
proof fn lemma_doomed_stay(
    start: PruneState,
    replies: Seq<PruneReply>,
    keys: Seq<String>,
    m: int,
)
    requires
        start.stage is List,
        start.doomed.len() == 0,
        0 <= m < replies.len(),
        were_listed(keys)(prune_after(start, replies.take(m)), replies[m]),
    ensures
        !(prune_after(start, replies).stage is List),
        prune_after(start, replies).doomed == doomed_keys(
            texts(keys),
            start.name,
            start.own_stamp,
            start.now,
            start.period,
        ),
    decreases replies.len(),
{
    let earlier = replies.drop_last();
    lemma_prune_history(start, earlier);
    if m == replies.len() - 1 {
        assert(replies.take(m) == earlier);
    } else {
        assert(earlier.take(m) == replies.take(m));
        assert(earlier[m] == replies[m]);
        lemma_doomed_stay(start, earlier, keys, m);
    }
}

/// A cleanup that has not listed the objects has not done so before either.
proof fn lemma_unlisted_before(start: PruneState, replies: Seq<PruneReply>, m: int)
    requires
        start.stage is List,
        0 <= m <= replies.len(),
        prune_after(start, replies).stage is List,
    ensures
        prune_after(start, replies.take(m)).stage is List,
    decreases replies.len(),
{
    if m == replies.len() {
        assert(replies.take(m) == replies);
    } else {
        assert(replies.drop_last().take(m) == replies.take(m));
        lemma_unlisted_before(start, replies.drop_last(), m);
    }
}

/// A cleanup that is over has tried to delete, of everything that the store listed,
/// each object whose location ends in that of an archive of the run's name whose
/// stamp, not the run's own, lies further back than the period: however many
/// objects there are, and wherever among them it stands.
pub proof fn law_every_listed_object_is_judged(
    start: PruneState,
    replies: Seq<PruneReply>,
    keys: Seq<String>,
    i: int,
    head: Seq<char>,
    file: Seq<char>,
    seconds: int,
    n: u64,
)
    requires
        start.stage is List,
        start.doomed.len() == 0,
        prune_after(start, replies).stage is Done,
        prune_happened(start, replies, were_listed(keys)),
        0 <= i < keys.len(),
        keys[i]@ == head + location_of(file),
        head.len() == 0 || head.last() == '/',
        is_archive_of(file, start.name, seconds),
        !start.name.contains('/'),
        stamp_text(seconds * 1_000_000_000) != start.own_stamp,
        ({
            let age = start.now - seconds * 1_000_000_000;
            ||| start.period == RetentionPeriod::Hours(n) && age > (n as int) * 3600 * 1_000_000_000
            ||| start.period == RetentionPeriod::Days(n) && age > (n as int) * 86400 * 1_000_000_000
        }),
    ensures
        prune_happened(start, replies, deletion_of(keys[i]@)),
{
    let next = |state: PruneState, reply: PruneReply| state.next(reply);
    let m = choose|m: int| #[trigger] happened_at(start, next, replies, were_listed(keys), m);
    lemma_doomed_stay(start, replies, keys, m);
    let key = keys[i]@;
    let due = |key: Seq<char>|
        object_expired(key, start.name, start.own_stamp, start.now, start.period);
    law_archives_are_found_behind_any_prefix(head, file, start.name, seconds);
    law_age_is_measured_in_hours_and_days(
        start.own_stamp,
        seconds * 1_000_000_000,
        start.now,
        n,
    );
    assert(due(key));
    let all = texts(keys);
    assert(all[i] == key);
    let doomed = prune_after(start, replies).doomed;
    all.lemma_filter_contains(due, i);
    let j = choose|j: int| 0 <= j < doomed.len() && doomed[j] == key;
    law_prune_misses_nothing(start, replies, j);
    let k = choose|k: int| #[trigger] happened_at(start, next, replies, deletion_tried(j), k);
    // The deletion was asked for after the listing.
    if k <= m {
        assert(replies.take(m).take(k) == replies.take(k));
        lemma_unlisted_before(start, replies.take(m), k);
        assert(false);
    }
    assert(replies.take(k).take(m) == replies.take(m));
    assert(replies.take(k)[m] == replies[m]);
    lemma_doomed_stay(start, replies.take(k), keys, m);
    assert(happened_at(start, next, replies, deletion_of(key), k));
}

/// What makes an object go, in full.
proof fn lemma_expired_objects_are_these(
    listed: Seq<char>,
    name: Seq<char>,
    own_stamp: Seq<char>,
    now: int,
    period: RetentionPeriod,
) -> (found: (Seq<char>, int))
    requires
        object_expired(listed, name, own_stamp, now, period),
    ensures
        ({
            let (file, seconds) = found;
            let age = now - seconds * 1_000_000_000;
            &&& is_archive_of(file, name, seconds)
            &&& after_last(listed, '/') == location_of(file)
            &&& stamp_text(seconds * 1_000_000_000) != own_stamp
            &&& match period {
                RetentionPeriod::Unlimited => false,
                RetentionPeriod::Hours(n) => age > (n as int) * 3600 * 1_000_000_000,
                RetentionPeriod::Days(n) => age > (n as int) * 86400 * 1_000_000_000,
            }
        }),
{
    let segment = after_last(listed, '/');
    let seconds = object_seconds(segment, name)->0;
    let stamp = stamp_text(seconds * 1_000_000_000);
    law_objects_are_recognised_exactly(segment, name, seconds);
    law_files_are_called_by_name_and_stamp(name, stamp, 0);
    let archive = archive_name_text(name, stamp);
    let plain = final_name_text(archive, EncryptionType::Plaintext);
    let encrypted = final_name_text(archive, EncryptionType::Openpgp);
    let n: u64 = match period {
        RetentionPeriod::Unlimited => 0,
        RetentionPeriod::Hours(n) => n,
        RetentionPeriod::Days(n) => n,
    };
    law_age_is_measured_in_hours_and_days(own_stamp, seconds * 1_000_000_000, now, n);
    if segment == location_of(plain) {
        (plain, seconds)
    } else {
        (encrypted, seconds)
    }
}

/// What is doomed was listed.
proof fn lemma_doomed_were_listed(start: PruneState, replies: Seq<PruneReply>, i: int)
    requires
        start.stage is List,
        start.doomed.len() == 0,
        0 <= i < prune_after(start, replies).doomed.len(),
    ensures
        prune_happened(
            start,
            replies,
            key_was_listed(prune_after(start, replies).doomed[i]),
        ),
{
    lemma_prune_history(start, replies);
    let next = |state: PruneState, reply: PruneReply| state.next(reply);
    let doomed = prune_after(start, replies).doomed;
    let key = doomed[i];
    let k = choose|k: int| #[trigger] happened_at(start, next, replies, keys_listed(doomed), k);
    let then = prune_after(start, replies.take(k));
    let list = replies[k]->Listed_0->Ok_0;
    let all = texts(list@);
    let due = |key: Seq<char>|
        object_expired(key, then.name, then.own_stamp, then.now, then.period);
    assert(doomed == all.filter(due));
    assert(all.filter(due).contains(key));
    all.lemma_filter_contains_rev(due, key);
    let j = choose|j: int| 0 <= j < all.len() && all[j] == key;
    assert(list@[j]@ == key);
    assert(happened_at(start, next, replies, key_was_listed(key), k));
}

/// Whatever a cleanup deletes, the store listed, and its last name is the location
/// of an archive of the run's name, of a second whose stamp is not the run's own,
/// further back than the period. Without a limit it deletes nothing.
pub proof fn law_nothing_else_is_deleted(
    start: PruneState,
    replies: Seq<PruneReply>,
    i: int,
) -> (found: (Seq<char>, int))
    requires
        start.stage is List,
        start.doomed.len() == 0,
        prune_after(start, replies).stage == PruneWait::Delete(i),
    ensures
        ({
            let doomed = prune_after(start, replies).doomed;
            let (file, seconds) = found;
            let age = start.now - seconds * 1_000_000_000;
            &&& 0 <= i < doomed.len()
            &&& prune_happened(start, replies, key_was_listed(doomed[i]))
            &&& is_archive_of(file, start.name, seconds)
            &&& after_last(doomed[i], '/') == location_of(file)
            &&& stamp_text(seconds * 1_000_000_000) != start.own_stamp
            &&& match start.period {
                RetentionPeriod::Unlimited => false,
                RetentionPeriod::Hours(n) => age > (n as int) * 3600 * 1_000_000_000,
                RetentionPeriod::Days(n) => age > (n as int) * 86400 * 1_000_000_000,
            }
        }),
{
    law_only_expired_objects_are_deleted(start, replies, i);
    lemma_doomed_were_listed(start, replies, i);
    lemma_expired_objects_are_these(
        prune_after(start, replies).doomed[i],
        start.name,
        start.own_stamp,
        start.now,
        start.period,
    )
}

/// A cleanup begins with what it was asked, and a listing still to come.
pub proof fn law_prune_begins_as_asked(
    bucket: Seq<char>,
    prefix: Seq<char>,
    name: Seq<char>,
    own_stamp: Seq<char>,
    now: int,
    period: RetentionPeriod,
)
    ensures
        ({
            let start = prune_start(bucket, prefix, name, own_stamp, now, period);
            &&& start.bucket == bucket && start.prefix == prefix && start.name == name
            &&& start.own_stamp == own_stamp && start.now == now && start.period == period
            &&& start.stage is List && start.doomed.len() == 0
        }),
{
}

/// A step of an upload that fails fails it, and the cause is told whole; once blocks
/// are being sent, the upload is aborted first.
pub proof fn law_failed_uploads_tell_why(
    state: UploadState,
    cause: Failure,
    chain: Seq<Seq<char>>,
)
    ensures
        state.stage is Head ==> {
            let failed = state.next(UploadReply::Head(Head::Failed(cause))).stage;
            let unasked = state.next(UploadReply::Head(Head::NotAsked(cause))).stage;
            &&& failed is Done && failed->Done_0 is Err && tells(failed->Done_0->Err_0, cause@)
            &&& unasked is Done && unasked->Done_0 is Err && tells(unasked->Done_0->Err_0, cause@)
        },
        state.stage is Initiate ==> state.next(UploadReply::NotAsked(cause)).stage
            == UploadWait::Done(Err::<(), Seq<Seq<char>>>(cause@)),
        state.stage is Initiate || state.stage is Open || state.stage is Finish ==> {
            let then = state.next(UploadReply::Did(Err(cause))).stage;
            then is Done && then->Done_0 is Err && tells(then->Done_0->Err_0, cause@)
        },
        state.stage is Read ==> {
            let then = state.next(UploadReply::Read(Err(cause))).stage;
            then is Abort && tells(then->Abort_0, cause@)
        },
        state.stage is Write ==> {
            let then = state.next(UploadReply::Did(Err(cause))).stage;
            then is Abort && tells(then->Abort_0, cause@)
        },
        state.stage == UploadWait::Abort(chain) ==> state.next(UploadReply::Aborted).stage
            == UploadWait::Done(Err::<(), Seq<Seq<char>>>(chain)),
{
}

/// An object that stands in the way is told with its key and its size.
pub proof fn law_taken_keys_are_told(bytes: u64, key: Seq<char>)
    ensures
        object_problem(Head::Found(bytes), key) == Some(
            seq![
                "s3 object "@ + key + " already exists ("@ + decimal(bytes as nat) + " bytes)"@,
            ],
        ),
{
}

/// What a cleanup of the bucket does is told, object by object, and it goes on with
/// the next one whatever became of the last: a bucket that cannot be listed is left
/// as it is.
pub proof fn law_prune_tells_and_goes_on(state: PruneState, cause: Failure, i: int, j: int)
    ensures
        state.stage == PruneWait::Delete(i) && 0 <= i < state.doomed.len() ==> {
            let url = "s3://"@ + state.bucket + "/"@ + state.doomed[i];
            &&& state.next(PruneReply::Deleted(Ok(()))).stage == PruneWait::Log(
                "retention: removed "@ + url,
                i + 1,
            )
            &&& state.next(PruneReply::Deleted(Err(cause))).stage == PruneWait::Log(
                "retention: warning: cannot delete "@ + url + " ("@ + headline_of(cause@)
                    + "); keeping it"@,
                i + 1,
            )
        },
        state.stage is Log && state.stage->Log_1 == j ==> {
            let then = state.next(PruneReply::Logged);
            &&& then.doomed == state.doomed
            &&& j < state.doomed.len() ==> then.stage == PruneWait::Delete(j)
            &&& j >= state.doomed.len() ==> then.stage is Done
        },
        state.stage is List ==> {
            let then = state.next(PruneReply::Listed(Err(cause)));
            then.stage is Log && then.stage->Log_1 == 0 && then.doomed.len() == 0
        },
{
}

/// An upload begins with the artifact and the key it was asked for, and with a look
/// for the object.
pub proof fn law_uploads_begin_as_asked(artifact: Seq<u8>, key: Seq<char>)
    ensures
        upload_start(artifact, key).artifact == artifact,
        upload_start(artifact, key).key == key,
        upload_start(artifact, key).stage is Head,
{
}

} // verus!
