//! Delivery of the finished artifact to local targets: a copy under a `.part`
//! name, brought to disk and only then renamed, never over an archive that is
//! already there. And the cleanup of archives that have outlived their period.

use vstd::prelude::*;
use vstd::utf8::encode_utf8;

use crate::calendar::{stamp_text, Moment};
use crate::config::RetentionPeriod;
use crate::failure::{headline_of, in_context, tells, Failure};
use crate::naming::{part_name, part_name_text};
use crate::path::{
    about, child, copy_paths, file_name_of, parent_of, paths, renaming, renaming_text, shown,
    text_of, FilePath,
};
use crate::retention::{expired, is_archive_of, is_expired, law_expired_archives_are_these};
use crate::text::{decimal, join, joined, number_text, texts};
use crate::trace::{after, happened, happened_at, lemma_happened};

verus! {

/// Where the file `name` stands in each of `targets`.
pub open spec fn places(targets: Seq<Seq<u8>>, name: Seq<char>) -> Seq<Seq<u8>> {
    targets.map_values(|dir: Seq<u8>| child(dir, encode_utf8(name)))
}

/// The targets, as text, that hold the file already: those marked in `taken`.
pub open spec fn collisions(targets: Seq<Seq<u8>>, taken: Seq<bool>) -> Seq<Seq<char>>
    decreases targets.len(),
{
    if targets.len() == 0 {
        Seq::empty()
    } else {
        let before = collisions(targets.drop_last(), taken);
        let last = targets.len() - 1;
        if last < taken.len() && taken[last] {
            before.push(shown(targets.last()))
        } else {
            before
        }
    }
}

/// Why a run is refused whose artifact is already in a target, if it is: a run
/// within the same second would overwrite the backup before it.
pub open spec fn collision_problem(
    targets: Seq<Seq<u8>>,
    taken: Seq<bool>,
    file_name: Seq<char>,
) -> Option<Seq<Seq<char>>> {
    let found = collisions(targets, taken);
    if found.len() == 0 {
        None
    } else {
        Some(
            seq![
                "target(s) already contain "@ + file_name + ": "@ + joined(found, ", "@)
                    + "; remove them or run later (a same-second run would overwrite a previous backup)"@,
            ],
        )
    }
}

/// Refuse a run when a target holds `file_name` already; `taken` says of each
/// target whether it does.
pub fn ensure_targets_free(targets: &Vec<FilePath>, taken: &Vec<bool>, file_name: &str) -> (r:
    Result<(), Failure>)
    ensures
        match r {
            Ok(_) => collision_problem(paths(targets@), taken@, file_name@) is None,
            Err(failure) => collision_problem(paths(targets@), taken@, file_name@) == Some(
                failure@,
            ),
        },
{
    let ghost all = paths(targets@);
    let mut found: Vec<String> = Vec::new();
    assert(all.take(0) == Seq::<Seq<u8>>::empty());
    for i in 0..targets.len()
        invariant
            all == paths(targets@),
            texts(found@) == collisions(all.take(i as int), taken@),
    {
        let ghost before = texts(found@);
        assert(all.take(i + 1).drop_last() == all.take(i as int));
        assert(all[i as int] == targets@[i as int]@);
        if i < taken.len() && taken[i] {
            let text = targets[i].display();
            found.push(text);
            assert(texts(found@) == before.push(text@));
        }
    }
    assert(all.take(all.len() as int) == all);
    if found.len() == 0 {
        return Ok(());
    }
    let mut message = "target(s) already contain ".to_string();
    message.append(file_name);
    message.append(": ");
    message.append(join(&found, ", ").as_str());
    message.append(
        "; remove them or run later (a same-second run would overwrite a previous backup)",
    );
    Err(Failure::new(message))
}

/// What one delivery waits for.
#[derive(Debug)]
pub enum OneStage {
    /// Copy the artifact to its `.part` name.
    Copy,
    /// Bring the copy to disk.
    Sync,
    /// Give the copy its name.
    Rename,
    /// Bring the directory to disk.
    SyncDir(FilePath),
    /// Print a warning.
    Warn(String),
    /// Remove the incomplete copy.
    DropPart(Failure),
    /// The delivery is over.
    Done(Result<(), Failure>),
}

/// What one delivery waits for, in mathematical terms.
pub ghost enum OneWait {
    Copy,
    Sync,
    Rename,
    SyncDir(Seq<u8>),
    Warn(Seq<char>),
    DropPart(Seq<Seq<char>>),
    Done(Result<(), Seq<Seq<char>>>),
}

impl View for OneStage {
    type V = OneWait;

    open spec fn view(&self) -> OneWait {
        match *self {
            OneStage::Copy => OneWait::Copy,
            OneStage::Sync => OneWait::Sync,
            OneStage::Rename => OneWait::Rename,
            OneStage::SyncDir(dir) => OneWait::SyncDir(dir@),
            OneStage::Warn(text) => OneWait::Warn(text@),
            OneStage::DropPart(failure) => OneWait::DropPart(failure@),
            OneStage::Done(Ok(_)) => OneWait::Done(Ok(())),
            OneStage::Done(Err(failure)) => OneWait::Done(Err(failure@)),
        }
    }
}

/// A reply to what one delivery waited for.
#[derive(Debug)]
pub enum OneReply {
    /// What was asked was done, or failed.
    Did(Result<(), Failure>),
    /// The warning was printed.
    Warned,
    /// The incomplete copy was removed, as far as it could be.
    Dropped,
}

/// The delivery of an artifact to one target.
#[derive(Debug)]
pub struct DeliverOne {
    /// What is copied.
    pub artifact: FilePath,
    pub part: FilePath,
    pub dest: FilePath,
    pub stage: OneStage,
}

/// The delivery to one target, in mathematical terms.
pub ghost struct OneState {
    pub artifact: Seq<u8>,
    pub part: Seq<u8>,
    pub dest: Seq<u8>,
    pub stage: OneWait,
}

impl View for DeliverOne {
    type V = OneState;

    open spec fn view(&self) -> OneState {
        OneState {
            artifact: self.artifact@,
            part: self.part@,
            dest: self.dest@,
            stage: self.stage@,
        }
    }
}

impl OneState {
    pub open spec fn at(self, stage: OneWait) -> OneState {
        OneState { stage, ..self }
    }

    /// On to `stage` if the step succeeded; else the incomplete copy is removed.
    pub open spec fn if_done(
        self,
        result: Result<(), Failure>,
        context: Seq<char>,
        stage: OneWait,
    ) -> OneState {
        match result {
            Ok(_) => self.at(stage),
            Err(cause) => self.at(OneWait::DropPart(in_context(context, cause@))),
        }
    }

    /// What follows the rename: the directory entry is brought to disk too.
    pub open spec fn renamed(self) -> OneWait {
        match parent_of(self.dest) {
            Some(dir) => OneWait::SyncDir(dir),
            None => OneWait::Done(Ok(())),
        }
    }

    /// The delivery after the reply to what it waited for. Any other reply leaves
    /// it waiting. That the directory cannot be brought to disk is worth a
    /// warning and no more: some file systems do not offer it.
    pub open spec fn next(self, reply: OneReply) -> OneState {
        match (self.stage, reply) {
            (OneWait::Copy, OneReply::Did(result)) => self.if_done(
                result,
                "copy artifact to "@ + shown(self.part),
                OneWait::Sync,
            ),
            (OneWait::Sync, OneReply::Did(result)) => self.if_done(
                result,
                "fsync "@ + shown(self.part),
                OneWait::Rename,
            ),
            (OneWait::Rename, OneReply::Did(result)) => self.if_done(
                result,
                renaming(self.part, self.dest),
                self.renamed(),
            ),
            (OneWait::SyncDir(dir), OneReply::Did(result)) => match result {
                Ok(_) => self.at(OneWait::Done(Ok(()))),
                Err(cause) => self.at(
                    OneWait::Warn(
                        "warning: could not fsync target directory "@ + shown(dir) + " ("@
                            + headline_of(cause@)
                            + "); the archive itself was already fsynced"@,
                    ),
                ),
            },
            (OneWait::Warn(_), OneReply::Warned) => self.at(OneWait::Done(Ok(()))),
            (OneWait::DropPart(chain), OneReply::Dropped) => self.at(OneWait::Done(Err(chain))),
            _ => self,
        }
    }
}

/// On to `stage` if the step succeeded, else to the removal.
fn if_done(result: Result<(), Failure>, context: String, stage: OneStage) -> (r: OneStage)
    ensures
        r@ == match result {
            Ok(_) => stage@,
            Err(cause) => OneWait::DropPart(in_context(context@, cause@)),
        },
{
    match result {
        Ok(_) => stage,
        Err(cause) => OneStage::DropPart(cause.context(context)),
    }
}

/// One delivery at its beginning.
pub open spec fn one_start(artifact: Seq<u8>, part: Seq<u8>, dest: Seq<u8>) -> OneState {
    OneState { artifact, part, dest, stage: OneWait::Copy }
}

/// Begin one delivery: `artifact` is copied to `dest` by way of `part`.
pub fn deliver_one(artifact: FilePath, part: FilePath, dest: FilePath) -> (r: DeliverOne)
    ensures
        r@ == one_start(artifact@, part@, dest@),
{
    DeliverOne { artifact, part, dest, stage: OneStage::Copy }
}

impl DeliverOne {
    /// Take the reply to what the delivery waited for.
    pub fn resume(self, reply: OneReply) -> (r: DeliverOne)
        ensures
            r@ == self@.next(reply),
    {
        let DeliverOne { artifact, part, dest, stage } = self;
        let stage = match (stage, reply) {
            (OneStage::Copy, OneReply::Did(result)) => if_done(
                result,
                about("copy artifact to ", &part),
                OneStage::Sync,
            ),
            (OneStage::Sync, OneReply::Did(result)) => if_done(
                result,
                about("fsync ", &part),
                OneStage::Rename,
            ),
            (OneStage::Rename, OneReply::Did(result)) => {
                let then = match dest.parent() {
                    Some(dir) => OneStage::SyncDir(dir),
                    None => OneStage::Done(Ok(())),
                };
                if_done(result, renaming_text(&part, &dest), then)
            },
            (OneStage::SyncDir(dir), OneReply::Did(result)) => match result {
                Ok(_) => OneStage::Done(Ok(())),
                Err(cause) => {
                    let mut text = about("warning: could not fsync target directory ", &dir);
                    text.append(" (");
                    text.append(cause.headline().as_str());
                    text.append("); the archive itself was already fsynced");
                    OneStage::Warn(text)
                },
            },
            (OneStage::Warn(_), OneReply::Warned) => OneStage::Done(Ok(())),
            (OneStage::DropPart(failure), OneReply::Dropped) => OneStage::Done(Err(failure)),
            (stage, _) => stage,
        };
        DeliverOne { artifact, part, dest, stage }
    }
}

/// One delivery from `start` after `replies`.
pub open spec fn one_after(start: OneState, replies: Seq<OneReply>) -> OneState {
    after(start, |state: OneState, reply: OneReply| state.next(reply), replies)
}

/// Whether it happened in the course of `replies`.
pub open spec fn one_happened(
    start: OneState,
    replies: Seq<OneReply>,
    what: spec_fn(OneState, OneReply) -> bool,
) -> bool {
    happened(start, |state: OneState, reply: OneReply| state.next(reply), replies, what)
}

pub open spec fn copied() -> spec_fn(OneState, OneReply) -> bool {
    |state: OneState, reply: OneReply|
        state.stage is Copy && reply matches OneReply::Did(Ok(_))
}

pub open spec fn synced() -> spec_fn(OneState, OneReply) -> bool {
    |state: OneState, reply: OneReply|
        state.stage is Sync && reply matches OneReply::Did(Ok(_))
}

pub open spec fn renamed() -> spec_fn(OneState, OneReply) -> bool {
    |state: OneState, reply: OneReply|
        state.stage is Rename && reply matches OneReply::Did(Ok(_))
}

pub open spec fn part_dropped() -> spec_fn(OneState, OneReply) -> bool {
    |state: OneState, reply: OneReply| state.stage is DropPart && reply is Dropped
}

spec fn has_renamed(stage: OneWait) -> bool {
    stage is SyncDir || stage is Warn || (stage matches OneWait::Done(Ok(_)))
}

proof fn lemma_one_history(start: OneState, replies: Seq<OneReply>)
    requires
        start.stage is Copy,
    ensures
        ({
            let state = one_after(start, replies);
            let stage = state.stage;
            &&& state == start.at(stage)
            &&& stage is Sync || stage is Rename || has_renamed(stage) ==> one_happened(
                start,
                replies,
                copied(),
            )
            &&& stage is Rename || has_renamed(stage) ==> one_happened(start, replies, synced())
            &&& has_renamed(stage) ==> one_happened(start, replies, renamed())
            &&& stage matches OneWait::Done(Err(_)) ==> one_happened(
                start,
                replies,
                part_dropped(),
            )
        }),
    decreases replies.len(),
{
    if replies.len() > 0 {
        let next = |state: OneState, reply: OneReply| state.next(reply);
        let before = one_after(start, replies.drop_last());
        lemma_one_history(start, replies.drop_last());
        lemma_happened(start, next, replies, copied());
        lemma_happened(start, next, replies, synced());
        lemma_happened(start, next, replies, renamed());
        lemma_happened(start, next, replies, part_dropped());
    }
}

/// The file appears under its name only once its copy is complete and on disk.
pub proof fn law_renamed_only_when_on_disk(start: OneState, replies: Seq<OneReply>)
    requires
        start.stage is Copy,
        one_after(start, replies).stage is Rename,
    ensures
        one_happened(start, replies, copied()),
        one_happened(start, replies, synced()),
{
    lemma_one_history(start, replies);
}

/// A delivery that succeeded has renamed the copy; one that failed has removed
/// it.
pub proof fn law_delivery_ends_clean(start: OneState, replies: Seq<OneReply>)
    requires
        start.stage is Copy,
        one_after(start, replies).stage is Done,
    ensures
        match one_after(start, replies).stage->Done_0 {
            Ok(_) => one_happened(start, replies, renamed()),
            Err(_) => one_happened(start, replies, part_dropped()),
        },
{
    lemma_one_history(start, replies);
}

/// What the delivery to all targets waits for.
#[derive(Debug)]
pub enum DeliverStage {
    /// Tell whether the next target holds the file; these were told already.
    Check(Vec<bool>),
    /// Tell whether this target holds the file by now.
    Probe(usize),
    /// Whatever the delivery to this target waits for.
    One(usize, DeliverOne),
    /// The delivery is over.
    Done(Result<Vec<FilePath>, Failure>),
}

/// What the delivery to all targets waits for, in mathematical terms.
pub ghost enum DeliverWait {
    Check(Seq<bool>),
    Probe(int),
    One(int, OneState),
    Done(Result<Seq<Seq<u8>>, Seq<Seq<char>>>),
}

impl View for DeliverStage {
    type V = DeliverWait;

    open spec fn view(&self) -> DeliverWait {
        match *self {
            DeliverStage::Check(taken) => DeliverWait::Check(taken@),
            DeliverStage::Probe(i) => DeliverWait::Probe(i as int),
            DeliverStage::One(i, one) => DeliverWait::One(i as int, one@),
            DeliverStage::Done(Ok(list)) => DeliverWait::Done(Ok(paths(list@))),
            DeliverStage::Done(Err(failure)) => DeliverWait::Done(Err(failure@)),
        }
    }
}

/// A reply to what the delivery waited for.
#[derive(Debug)]
pub enum DeliverReply {
    /// Whether the file is there.
    Found(bool),
    /// A reply to the delivery to one target.
    One(OneReply),
}

/// The delivery of an artifact to all local targets.
#[derive(Debug)]
pub struct Deliver {
    pub artifact: FilePath,
    pub file_name: String,
    pub targets: Vec<FilePath>,
    /// The process that delivers.
    pub process: u32,
    /// Where the artifact has arrived so far.
    pub delivered: Vec<FilePath>,
    /// What has failed so far, each with its target.
    pub failures: Vec<String>,
    pub stage: DeliverStage,
}

/// The delivery to all targets, in mathematical terms.
pub ghost struct DeliverState {
    pub artifact: Seq<u8>,
    pub file_name: Seq<char>,
    pub targets: Seq<Seq<u8>>,
    pub process: nat,
    pub delivered: Seq<Seq<u8>>,
    pub failures: Seq<Seq<char>>,
    pub stage: DeliverWait,
}

impl View for Deliver {
    type V = DeliverState;

    open spec fn view(&self) -> DeliverState {
        DeliverState {
            artifact: self.artifact@,
            file_name: self.file_name@,
            targets: paths(self.targets@),
            process: self.process as nat,
            delivered: paths(self.delivered@),
            failures: texts(self.failures@),
            stage: self.stage@,
        }
    }
}

/// `delivery failed for <m> of <n> target(s): <failures>`.
pub open spec fn failure_summary(failures: Seq<Seq<char>>, total: nat) -> Seq<char> {
    "delivery failed for "@ + decimal(failures.len()) + " of "@ + decimal(total) + " target(s): "@
        + joined(failures, "; "@)
}

/// `delivery failed for <m> of <n> target(s): <failures>`.
pub fn failure_summary_text(failures: &Vec<String>, total: u128) -> (r: String)
    ensures
        r@ == failure_summary(texts(failures@), total as nat),
{
    let mut message = "delivery failed for ".to_string();
    message.append(number_text(failures.len() as u128).as_str());
    message.append(" of ");
    message.append(number_text(total).as_str());
    message.append(" target(s): ");
    message.append(join(failures, "; ").as_str());
    message
}

impl DeliverState {
    /// Where the file goes in the `i`-th target.
    pub open spec fn dest(self, i: int) -> Seq<u8> {
        child(self.targets[i], encode_utf8(self.file_name))
    }

    /// Where the copy to the `i`-th target is written.
    pub open spec fn part(self, i: int) -> Seq<u8> {
        child(self.targets[i], encode_utf8(part_name_text(self.file_name, self.process)))
    }

    /// The path of which it is to be told whether it exists.
    pub open spec fn probed(self) -> Option<Seq<u8>> {
        let i: int = match self.stage {
            DeliverWait::Check(taken) => taken.len() as int,
            DeliverWait::Probe(i) => i,
            _ => self.targets.len() as int,
        };
        if 0 <= i < self.targets.len() {
            Some(self.dest(i))
        } else {
            None
        }
    }

    pub open spec fn at(self, stage: DeliverWait) -> DeliverState {
        DeliverState { stage, ..self }
    }

    pub open spec fn failed(self, chain: Seq<Seq<char>>) -> DeliverState {
        self.at(DeliverWait::Done(Err(chain)))
    }

    /// On to the `i`-th target; behind the last one the delivery is over. Any
    /// failure fails it, and every failure is told.
    pub open spec fn onward(self, i: int) -> DeliverState {
        if i < self.targets.len() {
            self.at(DeliverWait::Probe(i))
        } else if self.failures.len() == 0 {
            self.at(DeliverWait::Done(Ok(self.delivered)))
        } else {
            self.failed(seq![failure_summary(self.failures, self.targets.len())])
        }
    }

    /// The `i`-th target was not served, for this reason.
    pub open spec fn missed(self, i: int, reason: Seq<char>) -> DeliverState {
        DeliverState {
            failures: self.failures.push(shown(self.targets[i]) + ": "@ + reason),
            ..self
        }.onward(i + 1)
    }

    /// The file arrived in the `i`-th target.
    pub open spec fn arrived(self, i: int) -> DeliverState {
        DeliverState { delivered: self.delivered.push(self.dest(i)), ..self }.onward(i + 1)
    }

    /// The check of the targets, so far told of these; it is repeated here
    /// because another run may have been faster.
    pub open spec fn checked(self, taken: Seq<bool>) -> DeliverState {
        if taken.len() < self.targets.len() {
            self.at(DeliverWait::Check(taken))
        } else {
            match collision_problem(self.targets, taken, self.file_name) {
                Some(chain) => self.failed(chain),
                None => self.onward(0),
            }
        }
    }

    /// The delivery after the reply to what it waited for. Any other reply leaves
    /// it waiting.
    pub open spec fn next(self, reply: DeliverReply) -> DeliverState {
        match (self.stage, reply) {
            (DeliverWait::Check(taken), DeliverReply::Found(found)) => self.checked(
                taken.push(found),
            ),
            (DeliverWait::Probe(i), DeliverReply::Found(found)) => if i >= self.targets.len() {
                self
            } else if found {
                self.missed(i, self.file_name + " already exists"@)
            } else {
                self.at(
                    DeliverWait::One(i, one_start(self.artifact, self.part(i), self.dest(i))),
                )
            },
            (DeliverWait::One(i, one), DeliverReply::One(reply)) => if i >= self.targets.len() {
                self
            } else {
                match one.next(reply).stage {
                    OneWait::Done(Ok(_)) => self.arrived(i),
                    OneWait::Done(Err(chain)) => self.missed(i, joined(chain, ": "@)),
                    _ => self.at(DeliverWait::One(i, one.next(reply))),
                }
            },
            _ => self,
        }
    }
}

/// The delivery at its beginning.
pub open spec fn deliver_start(
    artifact: Seq<u8>,
    targets: Seq<Seq<u8>>,
    process: nat,
) -> DeliverState {
    let blank = DeliverState {
        artifact,
        file_name: match file_name_of(artifact) {
            Some(name) => shown(name),
            None => Seq::empty(),
        },
        targets,
        process,
        delivered: Seq::empty(),
        failures: Seq::empty(),
        stage: DeliverWait::Probe(0),
    };
    if file_name_of(artifact) is None {
        blank.failed(seq!["artifact has no file name"@])
    } else {
        blank.checked(Seq::empty())
    }
}

/// Begin to deliver `artifact` to `targets`, on behalf of the process `process`.
pub fn deliver(artifact: FilePath, targets: Vec<FilePath>, process: u32) -> (r: Deliver)
    ensures
        r@ == deliver_start(artifact@, paths(targets@), process as nat),
{
    let named = artifact.file_name();
    let (file_name, known) = match named {
        Some(name) => (text_of(&name), true),
        None => (String::new(), false),
    };
    let fresh = Deliver {
        artifact,
        file_name,
        targets,
        process,
        delivered: Vec::new(),
        failures: Vec::new(),
        stage: DeliverStage::Probe(0),
    };
    assert(fresh@.delivered == Seq::<Seq<u8>>::empty());
    assert(fresh@.failures == Seq::<Seq<char>>::empty());
    if known {
        let taken: Vec<bool> = Vec::new();
        assert(taken@ == Seq::<bool>::empty());
        fresh.checked(taken)
    } else {
        assert(fresh.file_name@ == Seq::<char>::empty());
        fresh.at(DeliverStage::Done(Err(Failure::say("artifact has no file name"))))
    }
}

impl Deliver {
    /// The path of which it is to be told whether it exists, if that is what the
    /// delivery waits for.
    pub fn probed(&self) -> (r: Option<FilePath>)
        ensures
            match self@.probed() {
                Some(path) => r is Some && r->0@ == path,
                None => r is None,
            },
    {
        let i: usize = match &self.stage {
            DeliverStage::Check(taken) => taken.len(),
            DeliverStage::Probe(i) => *i,
            _ => {
                return None;
            },
        };
        if i < self.targets.len() {
            Some(self.dest(i))
        } else {
            None
        }
    }

    fn dest(&self, i: usize) -> (r: FilePath)
        requires
            i < self.targets@.len(),
        ensures
            r@ == self@.dest(i as int),
    {
        self.targets[i].file(self.file_name.as_str())
    }

    fn at(self, stage: DeliverStage) -> (r: Deliver)
        ensures
            r@ == self@.at(stage@),
    {
        Deliver {
            artifact: self.artifact,
            file_name: self.file_name,
            targets: self.targets,
            process: self.process,
            delivered: self.delivered,
            failures: self.failures,
            stage,
        }
    }

    fn onward(self, i: usize) -> (r: Deliver)
        ensures
            r@ == self@.onward(i as int),
    {
        let Deliver { artifact, file_name, targets, process, delivered, failures, stage } = self;
        let stage = if i < targets.len() {
            DeliverStage::Probe(i)
        } else if failures.len() == 0 {
            DeliverStage::Done(Ok(copy_paths(&delivered)))
        } else {
            DeliverStage::Done(
                Err(Failure::new(failure_summary_text(&failures, targets.len() as u128))),
            )
        };
        Deliver { artifact, file_name, targets, process, delivered, failures, stage }
    }

    fn missed(self, i: usize, reason: &str) -> (r: Deliver)
        requires
            i < self.targets@.len(),
        ensures
            r@ == self@.missed(i as int, reason@),
    {
        let Deliver { artifact, file_name, targets, process, delivered, mut failures, stage } = self;
        let ghost before = texts(failures@);
        let mut text = targets[i].display();
        text.append(": ");
        text.append(reason);
        failures.push(text);
        assert(texts(failures@) == before.push(text@));
        assert(i < targets.len());
        Deliver { artifact, file_name, targets, process, delivered, failures, stage }.onward(i + 1)
    }

    fn arrived(self, i: usize) -> (r: Deliver)
        requires
            i < self.targets@.len(),
        ensures
            r@ == self@.arrived(i as int),
    {
        let dest = self.dest(i);
        let Deliver { artifact, file_name, targets, process, mut delivered, failures, stage } = self;
        let ghost before = paths(delivered@);
        delivered.push(dest);
        assert(paths(delivered@) == before.push(dest@));
        assert(i < targets.len());
        Deliver { artifact, file_name, targets, process, delivered, failures, stage }.onward(i + 1)
    }

    fn checked(self, taken: Vec<bool>) -> (r: Deliver)
        ensures
            r@ == self@.checked(taken@),
    {
        if taken.len() < self.targets.len() {
            return self.at(DeliverStage::Check(taken));
        }
        match ensure_targets_free(&self.targets, &taken, self.file_name.as_str()) {
            Err(failure) => self.at(DeliverStage::Done(Err(failure))),
            Ok(_) => self.onward(0),
        }
    }

    /// Take the reply to what the delivery waited for.
    pub fn resume(self, reply: DeliverReply) -> (r: Deliver)
        ensures
            r@ == self@.next(reply),
    {
        let Deliver { artifact, file_name, targets, process, delivered, failures, stage } = self;
        let idle = Deliver {
            artifact,
            file_name,
            targets,
            process,
            delivered,
            failures,
            stage: DeliverStage::Probe(0),
        };
        match (stage, reply) {
            (DeliverStage::Check(taken), DeliverReply::Found(found)) => {
                let mut taken = taken;
                taken.push(found);
                idle.checked(taken)
            },
            (DeliverStage::Probe(i), DeliverReply::Found(found)) => if i >= idle.targets.len() {
                idle.at(DeliverStage::Probe(i))
            } else if found {
                let mut reason = idle.file_name.clone();
                reason.append(" already exists");
                idle.missed(i, reason.as_str())
            } else {
                let part = idle.targets[i].file(
                    part_name(idle.file_name.as_str(), idle.process).as_str(),
                );
                let one = deliver_one(idle.artifact.clone(), part, idle.dest(i));
                idle.at(DeliverStage::One(i, one))
            },
            (DeliverStage::One(i, one), DeliverReply::One(reply)) => if i >= idle.targets.len() {
                idle.at(DeliverStage::One(i, one))
            } else {
                let one = one.resume(reply);
                match one.stage {
                    OneStage::Done(Ok(_)) => idle.arrived(i),
                    OneStage::Done(Err(failure)) => idle.missed(i, failure.full().as_str()),
                    _ => idle.at(DeliverStage::One(i, one)),
                }
            },
            (stage, _) => idle.at(stage),
        }
    }
}

/// The delivery from `start` after `replies`.
pub open spec fn deliver_after(start: DeliverState, replies: Seq<DeliverReply>) -> DeliverState {
    after(start, |state: DeliverState, reply: DeliverReply| state.next(reply), replies)
}

/// Whether it happened in the course of `replies`.
pub open spec fn deliver_happened(
    start: DeliverState,
    replies: Seq<DeliverReply>,
    what: spec_fn(DeliverState, DeliverReply) -> bool,
) -> bool {
    happened(start, |state: DeliverState, reply: DeliverReply| state.next(reply), replies, what)
}

/// The `i`-th target was found not to hold the file, right before the copy.
pub open spec fn found_free(i: int) -> spec_fn(DeliverState, DeliverReply) -> bool {
    |state: DeliverState, reply: DeliverReply|
        state.stage == DeliverWait::Probe(i) && reply == DeliverReply::Found(false)
}

/// What holds of a delivery at every moment.
pub open spec fn delivery_sound(start: DeliverState, state: DeliverState) -> bool {
    let dests = places(state.targets, state.file_name);
    &&& state.artifact == start.artifact && state.file_name == start.file_name && state.targets
        == start.targets && state.process == start.process
    &&& match state.stage {
        DeliverWait::Check(taken) => taken.len() < state.targets.len() && state.delivered.len() == 0
            && state.failures.len() == 0,
        DeliverWait::Probe(i) => {
            &&& 0 <= i < state.targets.len()
            &&& state.delivered.len() + state.failures.len() == i
            &&& state.failures.len() == 0 ==> state.delivered == dests.take(i)
        },
        DeliverWait::One(i, one) => {
            &&& 0 <= i < state.targets.len()
            &&& state.delivered.len() + state.failures.len() == i
            &&& state.failures.len() == 0 ==> state.delivered == dests.take(i)
            &&& one.artifact == state.artifact
            &&& one.part == state.part(i)
            &&& one.dest == state.dest(i)
        },
        DeliverWait::Done(Ok(list)) => list == dests && state.failures.len() == 0,
        DeliverWait::Done(Err(_)) => true,
    }
}

proof fn lemma_onward_is_sound(start: DeliverState, state: DeliverState, i: int)
    requires
        0 <= i <= state.targets.len(),
        state.artifact == start.artifact && state.file_name == start.file_name && state.targets
            == start.targets && state.process == start.process,
        state.delivered.len() + state.failures.len() == i,
        state.failures.len() == 0 ==> state.delivered == places(
            state.targets,
            state.file_name,
        ).take(i),
    ensures
        delivery_sound(start, state.onward(i)),
{
    let dests = places(state.targets, state.file_name);
    if i == state.targets.len() {
        assert(dests.take(i) == dests);
    }
}

/// Every reply keeps a delivery sound.
pub proof fn lemma_deliver_step(start: DeliverState, state: DeliverState, reply: DeliverReply)
    requires
        delivery_sound(start, state),
    ensures
        delivery_sound(start, state.next(reply)),
{
    let dests = places(state.targets, state.file_name);
    match (state.stage, reply) {
        (DeliverWait::Check(taken), DeliverReply::Found(found)) => {
            let now = taken.push(found);
            if now.len() == state.targets.len() && collision_problem(
                state.targets,
                now,
                state.file_name,
            ) is None {
                assert(state.delivered == dests.take(0));
                lemma_onward_is_sound(start, state, 0);
            }
        },
        (DeliverWait::Probe(i), DeliverReply::Found(true)) => {
            let reason = state.file_name + " already exists"@;
            let more = state.failures.push(shown(state.targets[i]) + ": "@ + reason);
            lemma_onward_is_sound(start, DeliverState { failures: more, ..state }, i + 1);
        },
        (DeliverWait::One(i, one), DeliverReply::One(reply)) => match one.next(reply).stage {
            OneWait::Done(Ok(_)) => {
                let more = state.delivered.push(state.dest(i));
                assert(dests.take(i + 1) == dests.take(i).push(dests[i]));
                lemma_onward_is_sound(start, DeliverState { delivered: more, ..state }, i + 1);
            },
            OneWait::Done(Err(chain)) => {
                let more = state.failures.push(
                    shown(state.targets[i]) + ": "@ + joined(chain, ": "@),
                );
                lemma_onward_is_sound(start, DeliverState { failures: more, ..state }, i + 1);
            },
            _ => {},
        },
        _ => {},
    }
}

/// A delivery is sound at its beginning.
pub proof fn lemma_deliver_start(artifact: Seq<u8>, targets: Seq<Seq<u8>>, process: nat)
    ensures
        ({
            let start = deliver_start(artifact, targets, process);
            delivery_sound(start, start)
        }),
{
    let start = deliver_start(artifact, targets, process);
    if file_name_of(artifact) is Some && targets.len() == 0 {
        assert(start.delivered == places(start.targets, start.file_name).take(0));
        lemma_onward_is_sound(start, start, 0);
    }
}

proof fn lemma_deliver_history(
    artifact: Seq<u8>,
    targets: Seq<Seq<u8>>,
    process: nat,
    replies: Seq<DeliverReply>,
)
    ensures
        ({
            let start = deliver_start(artifact, targets, process);
            let state = deliver_after(start, replies);
            &&& delivery_sound(start, state)
            &&& state.stage matches DeliverWait::One(i, _) ==> deliver_happened(
                start,
                replies,
                found_free(i),
            )
        }),
    decreases replies.len(),
{
    let start = deliver_start(artifact, targets, process);
    if replies.len() == 0 {
        lemma_deliver_start(artifact, targets, process);
    } else {
        let next = |state: DeliverState, reply: DeliverReply| state.next(reply);
        let before = deliver_after(start, replies.drop_last());
        lemma_deliver_history(artifact, targets, process, replies.drop_last());
        lemma_deliver_step(start, before, replies.last());
        match before.next(replies.last()).stage {
            DeliverWait::One(i, _) => {
                lemma_happened(start, next, replies, found_free(i));
            },
            _ => {},
        }
    }
}

/// A delivery that succeeded has served every target, in the order given.
pub proof fn law_delivered_everywhere(
    artifact: Seq<u8>,
    targets: Seq<Seq<u8>>,
    process: nat,
    replies: Seq<DeliverReply>,
)
    requires
        deliver_after(deliver_start(artifact, targets, process), replies).stage matches
            DeliverWait::Done(Ok(_)),
    ensures
        file_name_of(artifact) is Some,
        deliver_after(deliver_start(artifact, targets, process), replies).stage
            == DeliverWait::Done(Ok(places(targets, shown(file_name_of(artifact)->0)))),
        ({
            let stage = deliver_after(deliver_start(artifact, targets, process), replies).stage;
            let list = stage->Done_0->Ok_0;
            &&& list.len() == targets.len()
            &&& forall|i: int|
                0 <= i < targets.len() ==> #[trigger] list[i] == child(
                    targets[i],
                    encode_utf8(shown(file_name_of(artifact)->0)),
                )
        }),
{
    lemma_deliver_history(artifact, targets, process, replies);
    let start = deliver_start(artifact, targets, process);
    if file_name_of(artifact) is None {
        lemma_done_stays(start, replies);
    }
}

proof fn lemma_done_stays(start: DeliverState, replies: Seq<DeliverReply>)
    requires
        start.stage is Done,
    ensures
        deliver_after(start, replies) == start,
    decreases replies.len(),
{
    if replies.len() > 0 {
        lemma_done_stays(start, replies.drop_last());
    }
}

/// Nothing is overwritten, and nothing but the artifact is copied: the copy of it
/// to a target's own place begins only after that very target was found not to
/// hold the file.
pub proof fn law_never_overwrites(
    artifact: Seq<u8>,
    targets: Seq<Seq<u8>>,
    process: nat,
    replies: Seq<DeliverReply>,
    i: int,
)
    requires
        deliver_after(deliver_start(artifact, targets, process), replies).stage matches
            DeliverWait::One(j, _) && i == j,
    ensures
        0 <= i < targets.len(),
        deliver_happened(deliver_start(artifact, targets, process), replies, found_free(i)),
        ({
            let state = deliver_after(deliver_start(artifact, targets, process), replies);
            let one = state.stage->One_1;
            &&& one.artifact == artifact
            &&& one.part == state.part(i)
            &&& one.dest == child(targets[i], encode_utf8(state.file_name))
        }),
{
    lemma_deliver_history(artifact, targets, process, replies);
}

/// One failing target does not stop the others: when the turn of the `i`-th
/// target comes, every earlier one has either been served or has failed.
pub proof fn law_targets_are_independent(
    artifact: Seq<u8>,
    targets: Seq<Seq<u8>>,
    process: nat,
    replies: Seq<DeliverReply>,
    reply: DeliverReply,
    i: int,
)
    requires
        deliver_after(deliver_start(artifact, targets, process), replies).stage matches
            DeliverWait::One(j, _) && i == j,
        i + 1 < targets.len(),
    ensures
        ({
            let state = deliver_after(deliver_start(artifact, targets, process), replies);
            &&& state.delivered.len() + state.failures.len() == i
            &&& state.next(reply).stage is One && state.next(reply).stage->One_0 == i
                || state.next(reply).stage == DeliverWait::Probe(i + 1)
        }),
{
    lemma_deliver_history(artifact, targets, process, replies);
}

/// Every failing target is named: whatever is replied while it is a target's turn
/// adds nothing to the failures, or one that begins with that target; and a
/// delivery that ends in failure tells all of them.
pub proof fn law_failing_targets_are_named(
    artifact: Seq<u8>,
    targets: Seq<Seq<u8>>,
    process: nat,
    replies: Seq<DeliverReply>,
    reply: DeliverReply,
    i: int,
)
    requires
        match deliver_after(deliver_start(artifact, targets, process), replies).stage {
            DeliverWait::Probe(j) => i == j,
            DeliverWait::One(j, _) => i == j,
            _ => false,
        },
    ensures
        ({
            let state = deliver_after(deliver_start(artifact, targets, process), replies);
            let then = state.next(reply);
            let named = shown(targets[i]) + ": "@;
            &&& then.failures == state.failures || (then.failures.len() == state.failures.len() + 1
                && then.failures.drop_last() == state.failures && named.is_prefix_of(
                then.failures.last(),
            ))
            &&& then.stage matches DeliverWait::Done(Err(chain)) ==> chain == seq![
                failure_summary(then.failures, targets.len()),
            ]
        }),
{
    lemma_deliver_history(artifact, targets, process, replies);
    let state = deliver_after(deliver_start(artifact, targets, process), replies);
    let then = state.next(reply);
    let named = shown(targets[i]) + ": "@;
    if then.failures != state.failures {
        assert(then.failures.drop_last() == state.failures);
        let last = then.failures.last();
        assert(last.subrange(0, named.len() as int) == named);
    }
}

/// What the file system says of an entry of a target, links not followed.
#[derive(Debug, Clone, Copy, PartialEq, Eq, Structural)]
pub enum EntryKind {
    Regular,
    Other,
    /// It cannot be told.
    Unknown,
}

/// An entry of a target.
#[derive(Debug)]
pub enum TargetEntry {
    /// An entry that cannot be read.
    Broken,
    /// A name in the directory.
    Named(Vec<u8>, EntryKind),
}

/// What the cleanup of one target waits for.
#[derive(Debug)]
pub enum CleanupStage {
    /// Read the target.
    List,
    /// Remove this entry.
    Remove(usize),
    /// Print a line, then go on from this entry.
    Log(String, usize),
    /// The cleanup is over. It never fails.
    Done,
}

/// What the cleanup of one target waits for, in mathematical terms.
pub ghost enum CleanupWait {
    List,
    Remove(int),
    Log(Seq<char>, int),
    Done,
}

impl View for CleanupStage {
    type V = CleanupWait;

    open spec fn view(&self) -> CleanupWait {
        match *self {
            CleanupStage::List => CleanupWait::List,
            CleanupStage::Remove(i) => CleanupWait::Remove(i as int),
            CleanupStage::Log(text, i) => CleanupWait::Log(text@, i as int),
            CleanupStage::Done => CleanupWait::Done,
        }
    }
}

/// A reply to what the cleanup waited for.
#[derive(Debug)]
pub enum CleanupReply {
    /// What the target holds.
    Listed(Result<Vec<TargetEntry>, Failure>),
    /// The entry was removed, or not.
    Removed(Result<(), Failure>),
    /// The line was printed.
    Logged,
}

/// The cleanup of one local target.
#[derive(Debug)]
pub struct Cleanup {
    pub dir: FilePath,
    pub name: String,
    pub own_stamp: String,
    pub now: Moment,
    pub period: RetentionPeriod,
    /// What the target holds.
    pub entries: Vec<TargetEntry>,
    pub stage: CleanupStage,
}

/// The cleanup of one local target, in mathematical terms.
pub ghost struct CleanupState {
    pub dir: Seq<u8>,
    pub name: Seq<char>,
    pub own_stamp: Seq<char>,
    pub now: int,
    pub period: RetentionPeriod,
    pub entries: Seq<TargetEntry>,
    pub stage: CleanupWait,
}

impl View for Cleanup {
    type V = CleanupState;

    open spec fn view(&self) -> CleanupState {
        CleanupState {
            dir: self.dir@,
            name: self.name@,
            own_stamp: self.own_stamp@,
            now: self.now@,
            period: self.period,
            entries: self.entries@,
            stage: self.stage@,
        }
    }
}

impl CleanupState {
    /// Whether an entry is to go: a regular file that is an archive of the name
    /// and has outlived the period.
    pub open spec fn is_due(self, entry: TargetEntry) -> bool {
        match entry {
            TargetEntry::Named(name, EntryKind::Regular) => expired(
                shown(name@),
                self.name,
                self.own_stamp,
                self.now,
                self.period,
            ),
            _ => false,
        }
    }

    /// The path of the `i`-th entry.
    pub open spec fn entry_path(self, i: int) -> Seq<u8> {
        match self.entries[i] {
            TargetEntry::Named(name, _) => child(self.dir, name@),
            TargetEntry::Broken => self.dir,
        }
    }

    pub open spec fn at(self, stage: CleanupWait) -> CleanupState {
        CleanupState { stage, ..self }
    }

    /// On to the first entry from the `i`-th that asks for something.
    pub open spec fn onward(self, i: int) -> CleanupState
        decreases self.entries.len() - i,
    {
        if i < 0 || i >= self.entries.len() {
            self.at(CleanupWait::Done)
        } else if self.entries[i] is Broken {
            self.at(
                CleanupWait::Log(
                    "retention: cannot read an entry in "@ + shown(self.dir)
                        + "; skipping it"@,
                    i + 1,
                ),
            )
        } else if self.is_due(self.entries[i]) {
            self.at(CleanupWait::Remove(i))
        } else {
            self.onward(i + 1)
        }
    }

    /// The cleanup after the reply to what it waited for. Any other reply leaves
    /// it waiting. What fails is told, and the cleanup goes on.
    pub open spec fn next(self, reply: CleanupReply) -> CleanupState {
        match (self.stage, reply) {
            (CleanupWait::List, CleanupReply::Listed(result)) => match result {
                Ok(entries) => CleanupState { entries: entries@, ..self }.onward(0),
                Err(cause) => CleanupState { entries: Seq::empty(), ..self }.at(
                    CleanupWait::Log(
                        "retention: cannot read target "@ + shown(self.dir)
                            + " for cleanup ("@ + headline_of(cause@)
                            + "); leaving it unchanged"@,
                        0,
                    ),
                ),
            },
            (CleanupWait::Remove(i), CleanupReply::Removed(result)) => if i >= self.entries.len() {
                self
            } else {
                match result {
                    Ok(_) => self.at(
                        CleanupWait::Log(
                            "retention: removed "@ + shown(self.entry_path(i)),
                            i + 1,
                        ),
                    ),
                    Err(cause) => self.at(
                        CleanupWait::Log(
                            "retention: warning: cannot remove "@ + shown(self.entry_path(i))
                                + " ("@ + headline_of(cause@) + "); keeping it"@,
                            i + 1,
                        ),
                    ),
                }
            },
            (CleanupWait::Log(_, i), CleanupReply::Logged) => self.onward(i),
            _ => self,
        }
    }
}

/// The cleanup at its beginning.
pub open spec fn cleanup_start(
    dir: Seq<u8>,
    name: Seq<char>,
    own_stamp: Seq<char>,
    now: int,
    period: RetentionPeriod,
) -> CleanupState {
    CleanupState {
        dir,
        name,
        own_stamp,
        now,
        period,
        entries: Seq::empty(),
        stage: CleanupWait::List,
    }
}

/// Begin the cleanup of the target `dir`: archives of `name` that have outlived
/// `period` at `now` are removed, but for the one that bears `own_stamp`.
pub fn cleanup_retention(
    dir: FilePath,
    name: String,
    own_stamp: String,
    now: Moment,
    period: RetentionPeriod,
) -> (r: Cleanup)
    ensures
        r@ == cleanup_start(dir@, name@, own_stamp@, now@, period),
{
    let cleanup = Cleanup {
        dir,
        name,
        own_stamp,
        now,
        period,
        entries: Vec::new(),
        stage: CleanupStage::List,
    };
    assert(cleanup.entries@ == Seq::<TargetEntry>::empty());
    cleanup
}

impl Cleanup {
    /// The path that is to be removed, if that is what the cleanup waits for.
    pub fn doomed(&self) -> (r: Option<FilePath>)
        ensures
            match self@.stage {
                CleanupWait::Remove(i) => if i < self@.entries.len() {
                    r is Some && r->0@ == self@.entry_path(i)
                } else {
                    r is None
                },
                _ => r is None,
            },
    {
        match &self.stage {
            CleanupStage::Remove(i) => if *i < self.entries.len() {
                Some(self.entry_path(*i))
            } else {
                None
            },
            _ => None,
        }
    }

    fn entry_path(&self, i: usize) -> (r: FilePath)
        requires
            i < self.entries@.len(),
        ensures
            r@ == self@.entry_path(i as int),
    {
        match &self.entries[i] {
            TargetEntry::Named(name, _) => self.dir.child(name),
            TargetEntry::Broken => self.dir.clone(),
        }
    }

    fn is_due(&self, i: usize) -> (r: bool)
        requires
            i < self.entries@.len(),
        ensures
            r == self@.is_due(self@.entries[i as int]),
    {
        match &self.entries[i] {
            TargetEntry::Named(name, EntryKind::Regular) => is_expired(
                text_of(name).as_str(),
                self.name.as_str(),
                self.own_stamp.as_str(),
                &self.now,
                &self.period,
            ),
            _ => false,
        }
    }

    fn at(self, stage: CleanupStage) -> (r: Cleanup)
        ensures
            r@ == self@.at(stage@),
    {
        Cleanup {
            dir: self.dir,
            name: self.name,
            own_stamp: self.own_stamp,
            now: self.now,
            period: self.period,
            entries: self.entries,
            stage,
        }
    }

    fn onward(self, from: usize) -> (r: Cleanup)
        ensures
            r@ == self@.onward(from as int),
    {
        let mut i: usize = from;
        while i < self.entries.len()
            invariant
                self@.onward(from as int) == self@.onward(i as int),
            decreases self.entries@.len() - i,
        {
            let broken = match &self.entries[i] {
                TargetEntry::Broken => true,
                _ => false,
            };
            if broken {
                let mut text = about("retention: cannot read an entry in ", &self.dir);
                text.append("; skipping it");
                return self.at(CleanupStage::Log(text, i + 1));
            }
            if self.is_due(i) {
                return self.at(CleanupStage::Remove(i));
            }
            i = i + 1;
        }
        self.at(CleanupStage::Done)
    }

    /// Take the reply to what the cleanup waited for.
    pub fn resume(self, reply: CleanupReply) -> (r: Cleanup)
        ensures
            r@ == self@.next(reply),
    {
        let Cleanup { dir, name, own_stamp, now, period, entries, stage } = self;
        let idle = Cleanup {
            dir,
            name,
            own_stamp,
            now,
            period,
            entries,
            stage: CleanupStage::Done,
        };
        match (stage, reply) {
            (CleanupStage::List, CleanupReply::Listed(result)) => {
                let Cleanup { dir, name, own_stamp, now, period, entries: _, stage: _ } = idle;
                match result {
                    Ok(entries) => Cleanup {
                        dir,
                        name,
                        own_stamp,
                        now,
                        period,
                        entries,
                        stage: CleanupStage::List,
                    }.onward(0),
                    Err(cause) => {
                        let mut text = about("retention: cannot read target ", &dir);
                        text.append(" for cleanup (");
                        text.append(cause.headline().as_str());
                        text.append("); leaving it unchanged");
                        let entries: Vec<TargetEntry> = Vec::new();
                        assert(entries@ == Seq::<TargetEntry>::empty());
                        let stage = CleanupStage::Log(text, 0);
                        Cleanup { dir, name, own_stamp, now, period, entries, stage }
                    },
                }
            },
            (CleanupStage::Remove(i), CleanupReply::Removed(result)) => if i
                >= idle.entries.len() {
                idle.at(CleanupStage::Remove(i))
            } else {
                let path = idle.entry_path(i);
                let text = match result {
                    Ok(_) => about("retention: removed ", &path),
                    Err(cause) => {
                        let mut text = about("retention: warning: cannot remove ", &path);
                        text.append(" (");
                        text.append(cause.headline().as_str());
                        text.append("); keeping it");
                        text
                    },
                };
                idle.at(CleanupStage::Log(text, i + 1))
            },
            (CleanupStage::Log(text, i), CleanupReply::Logged) => idle.at(
                CleanupStage::Log(text, i),
            ).onward(i),
            (stage, _) => idle.at(stage),
        }
    }
}

/// The cleanup from `start` after `replies`.
pub open spec fn cleanup_after(start: CleanupState, replies: Seq<CleanupReply>) -> CleanupState {
    after(start, |state: CleanupState, reply: CleanupReply| state.next(reply), replies)
}

/// Whether it happened in the course of `replies`.
pub open spec fn cleanup_happened(
    start: CleanupState,
    replies: Seq<CleanupReply>,
    what: spec_fn(CleanupState, CleanupReply) -> bool,
) -> bool {
    happened(start, |state: CleanupState, reply: CleanupReply| state.next(reply), replies, what)
}

/// The removal of the `i`-th entry was asked for, and answered.
pub open spec fn removal_tried(i: int) -> spec_fn(CleanupState, CleanupReply) -> bool {
    |state: CleanupState, reply: CleanupReply|
        state.stage == CleanupWait::Remove(i) && reply is Removed
}

/// The first entry that the cleanup has not dealt with yet.
spec fn reached(state: CleanupState) -> int {
    match state.stage {
        CleanupWait::List => 0,
        CleanupWait::Remove(i) => i,
        CleanupWait::Log(_, i) => i,
        CleanupWait::Done => state.entries.len() as int,
    }
}

/// What holds of a cleanup at every moment.
spec fn cleanup_sound(start: CleanupState, state: CleanupState) -> bool {
    &&& state == CleanupState { entries: state.entries, stage: state.stage, ..start }
    &&& state.stage is List ==> state.entries.len() == 0
    &&& 0 <= reached(state) <= state.entries.len()
    &&& state.stage matches CleanupWait::Remove(i) ==> i < state.entries.len() && state.is_due(
        state.entries[i],
    )
}

proof fn lemma_cleanup_onward(state: CleanupState, i: int)
    requires
        0 <= i <= state.entries.len(),
    ensures
        ({
            let then = state.onward(i);
            &&& then == state.at(then.stage)
            &&& !(then.stage is List)
            &&& i <= reached(then) <= state.entries.len()
            &&& forall|j: int|
                i <= j < reached(then) && state.is_due(#[trigger] state.entries[j]) ==> false
            &&& then.stage matches CleanupWait::Remove(k) ==> k < state.entries.len()
                && state.is_due(state.entries[k])
        }),
    decreases state.entries.len() - i,
{
    if i < state.entries.len() && !(state.entries[i] is Broken) && !state.is_due(
        state.entries[i],
    ) {
        lemma_cleanup_onward(state, i + 1);
    }
}

proof fn lemma_cleanup_history(start: CleanupState, replies: Seq<CleanupReply>)
    requires
        start.stage is List,
        start.entries.len() == 0,
    ensures
        ({
            let state = cleanup_after(start, replies);
            &&& cleanup_sound(start, state)
            &&& forall|j: int|
                0 <= j < reached(state) && state.is_due(#[trigger] state.entries[j])
                    ==> cleanup_happened(start, replies, removal_tried(j))
        }),
    decreases replies.len(),
{
    if replies.len() > 0 {
        let next = |state: CleanupState, reply: CleanupReply| state.next(reply);
        let before = cleanup_after(start, replies.drop_last());
        let reply = replies.last();
        let state = before.next(reply);
        lemma_cleanup_history(start, replies.drop_last());
        match (before.stage, reply) {
            (CleanupWait::List, CleanupReply::Listed(Ok(entries))) => {
                lemma_cleanup_onward(CleanupState { entries: entries@, ..before }, 0);
            },
            (CleanupWait::Log(_, i), CleanupReply::Logged) => {
                lemma_cleanup_onward(before, i);
            },
            _ => {},
        }
        assert forall|j: int|
            0 <= j < reached(state) && state.is_due(
                #[trigger] state.entries[j],
            ) implies cleanup_happened(start, replies, removal_tried(j)) by {
            lemma_happened(start, next, replies, removal_tried(j));
            if before.stage is List {
            } else {
                assert(state.entries == before.entries);
                assert(before.is_due(before.entries[j]));
                if j >= reached(before) {
                    assert(removal_tried(j)(before, reply));
                }
            }
        }
    }
}

proof fn lemma_onward_keeps(state: CleanupState, i: int)
    ensures
        state.onward(i) == state.at(state.onward(i).stage),
    decreases state.entries.len() - i,
{
    if 0 <= i < state.entries.len() && !(state.entries[i] is Broken) && !state.is_due(
        state.entries[i],
    ) {
        lemma_onward_keeps(state, i + 1);
    }
}

/// A cleanup keeps to its target, name, stamp, moment and period.
pub proof fn lemma_cleanup_keeps(state: CleanupState, reply: CleanupReply)
    ensures
        ({
            let then = state.next(reply);
            then == CleanupState { entries: then.entries, stage: then.stage, ..state }
        }),
{
    match (state.stage, reply) {
        (CleanupWait::List, CleanupReply::Listed(Ok(entries))) => {
            lemma_onward_keeps(CleanupState { entries: entries@, ..state }, 0);
        },
        (CleanupWait::Log(_, i), CleanupReply::Logged) => {
            lemma_onward_keeps(state, i);
        },
        _ => {},
    }
}

/// The cleanup removes nothing but regular files that are archives of the run's
/// name and have outlived the period.
pub proof fn law_only_expired_archives_are_removed(
    start: CleanupState,
    replies: Seq<CleanupReply>,
    i: int,
)
    requires
        start.stage is List,
        start.entries.len() == 0,
        cleanup_after(start, replies).stage == CleanupWait::Remove(i),
    ensures
        ({
            let state = cleanup_after(start, replies);
            &&& 0 <= i < state.entries.len()
            &&& state.entries[i] matches TargetEntry::Named(name, EntryKind::Regular) && expired(
                shown(name@),
                start.name,
                start.own_stamp,
                start.now,
                start.period,
            )
        }),
{
    lemma_cleanup_history(start, replies);
}

/// A cleanup that is over has tried to remove every expired archive that the
/// target held, whatever failed on the way.
pub proof fn law_cleanup_misses_nothing(
    start: CleanupState,
    replies: Seq<CleanupReply>,
    i: int,
)
    requires
        start.stage is List,
        start.entries.len() == 0,
        cleanup_after(start, replies).stage is Done,
        0 <= i < cleanup_after(start, replies).entries.len(),
        start.is_due(cleanup_after(start, replies).entries[i]),
    ensures
        cleanup_happened(start, replies, removal_tried(i)),
{
    lemma_cleanup_history(start, replies);
    let state = cleanup_after(start, replies);
    assert(state.is_due(state.entries[i]));
}

/// A run is refused for what its targets hold exactly if one of them holds the
/// artifact's name, and then every such target is told.
pub proof fn law_collisions_are_told_exactly(
    targets: Seq<Seq<u8>>,
    taken: Seq<bool>,
    file_name: Seq<char>,
    i: int,
)
    requires
        taken.len() == targets.len(),
    ensures
        collision_problem(targets, taken, file_name) is None <==> forall|k: int|
            0 <= k < targets.len() ==> !(#[trigger] taken[k]),
        0 <= i < targets.len() && taken[i] ==> collisions(targets, taken).contains(
            shown(targets[i]),
        ),
{
    lemma_collisions(targets, taken);
    if 0 <= i < targets.len() && taken[i] {
        assert(collisions(targets, taken).contains(shown(targets[i])));
    }
    if forall|k: int| 0 <= k < targets.len() ==> !(#[trigger] taken[k]) {
        lemma_no_collisions(targets, taken);
    } else {
        let k = choose|k: int| 0 <= k < targets.len() && #[trigger] taken[k];
        assert(collisions(targets, taken).contains(shown(targets[k])));
    }
}

proof fn lemma_no_collisions(targets: Seq<Seq<u8>>, taken: Seq<bool>)
    requires
        taken.len() >= targets.len(),
        forall|k: int| 0 <= k < targets.len() ==> !(#[trigger] taken[k]),
    ensures
        collisions(targets, taken).len() == 0,
    decreases targets.len(),
{
    if targets.len() > 0 {
        assert(!taken[targets.len() - 1]);
        lemma_no_collisions(targets.drop_last(), taken);
    }
}

proof fn lemma_collisions(targets: Seq<Seq<u8>>, taken: Seq<bool>)
    requires
        taken.len() >= targets.len(),
    ensures
        forall|i: int|
            0 <= i < targets.len() && #[trigger] taken[i] ==> collisions(targets, taken).contains(
                shown(targets[i]),
            ),
    decreases targets.len(),
{
    if targets.len() > 0 {
        let before = collisions(targets.drop_last(), taken);
        let whole = collisions(targets, taken);
        lemma_collisions(targets.drop_last(), taken);
        assert forall|i: int| 0 <= i < targets.len() && #[trigger] taken[i] implies whole.contains(
            shown(targets[i]),
        ) by {
            if i < targets.len() - 1 {
                assert(before.contains(shown(targets.drop_last()[i])));
                let k = choose|k: int| 0 <= k < before.len() && before[k] == shown(targets[i]);
                assert(whole[k] == shown(targets[i]));
            } else {
                assert(whole[whole.len() - 1] == shown(targets[i]));
            }
        }
    }
}

/// The artifact was copied to the `i`-th of `targets`, under its own name there.
pub open spec fn copied_to(artifact: Seq<u8>, targets: Seq<Seq<u8>>, i: int) -> spec_fn(
    DeliverState,
    DeliverReply,
) -> bool {
    |state: DeliverState, reply: DeliverReply|
        {
            &&& state.stage is One && state.stage->One_0 == i && reply is One
            &&& state.stage->One_1.artifact == artifact
            &&& state.stage->One_1.dest == child(
                targets[i],
                encode_utf8(shown(file_name_of(artifact)->0)),
            )
            &&& (state.stage->One_1.next(reply->One_0).stage matches OneWait::Done(Ok(_)))
        }
}

/// How many targets have had their turn.
spec fn turns(state: DeliverState) -> int {
    match state.stage {
        DeliverWait::Check(_) => 0,
        DeliverWait::Probe(i) => i,
        DeliverWait::One(i, _) => i,
        DeliverWait::Done(_) => state.targets.len() as int,
    }
}

proof fn lemma_copied(
    artifact: Seq<u8>,
    targets: Seq<Seq<u8>>,
    process: nat,
    replies: Seq<DeliverReply>,
)
    requires
        file_name_of(artifact) is Some,
    ensures
        ({
            let start = deliver_start(artifact, targets, process);
            let state = deliver_after(start, replies);
            state.failures.len() == 0 && !(state.stage matches DeliverWait::Done(Err(_)))
                ==> forall|j: int|
                0 <= j < turns(state) ==> deliver_happened(
                    start,
                    replies,
                    #[trigger] copied_to(artifact, targets, j),
                )
        }),
    decreases replies.len(),
{
    let start = deliver_start(artifact, targets, process);
    if replies.len() > 0 {
        let next = |state: DeliverState, reply: DeliverReply| state.next(reply);
        let before = deliver_after(start, replies.drop_last());
        let reply = replies.last();
        let state = deliver_after(start, replies);
        lemma_deliver_history(artifact, targets, process, replies.drop_last());
        lemma_copied(artifact, targets, process, replies.drop_last());
        if state.failures.len() == 0 && !(state.stage matches DeliverWait::Done(Err(_))) {
            assert forall|j: int| 0 <= j < turns(state) implies deliver_happened(
                start,
                replies,
                #[trigger] copied_to(artifact, targets, j),
            ) by {
                lemma_happened(start, next, replies, copied_to(artifact, targets, j));
                if j >= turns(before) {
                    assert(copied_to(artifact, targets, j)(before, reply));
                }
            }
        }
    }
}

/// A delivery that succeeded has copied the artifact to each of its targets,
/// however many there are, under its own name in each.
pub proof fn law_success_means_copied_to_every_target(
    artifact: Seq<u8>,
    targets: Seq<Seq<u8>>,
    process: nat,
    replies: Seq<DeliverReply>,
    i: int,
)
    requires
        deliver_after(deliver_start(artifact, targets, process), replies).stage matches
            DeliverWait::Done(Ok(_)),
        0 <= i < targets.len(),
    ensures
        deliver_happened(
            deliver_start(artifact, targets, process),
            replies,
            copied_to(artifact, targets, i),
        ),
{
    law_delivered_everywhere(artifact, targets, process, replies);
    lemma_deliver_history(artifact, targets, process, replies);
    lemma_copied(artifact, targets, process, replies);
    let state = deliver_after(deliver_start(artifact, targets, process), replies);
    assert(i < turns(state));
}

/// A delivery whose every step succeeds succeeds: copied, brought to disk, renamed,
/// and the directory brought to disk; and that the directory cannot be does not
/// fail it.
pub proof fn law_one_delivery_succeeds(
    artifact: Seq<u8>,
    part: Seq<u8>,
    dest: Seq<u8>,
    cause: Failure,
)
    ensures
        ({
            let done = OneReply::Did(Ok(()));
            let renaming = one_start(artifact, part, dest).next(done).next(done);
            let renamed = renaming.next(done);
            &&& one_start(artifact, part, dest).next(done).stage is Sync
            &&& renaming.stage is Rename
            &&& match parent_of(dest) {
                Some(dir) => {
                    &&& renamed.stage == OneWait::SyncDir(dir)
                    &&& renamed.next(done).stage matches OneWait::Done(Ok(_))
                    &&& renamed.next(OneReply::Did(Err(cause))).next(
                        OneReply::Warned,
                    ).stage matches OneWait::Done(Ok(_))
                },
                None => renamed.stage matches OneWait::Done(Ok(_)),
            }
        }),
{
}

/// The target was listed, and these are its entries.
pub open spec fn was_listed(entries: Seq<TargetEntry>) -> spec_fn(
    CleanupState,
    CleanupReply,
) -> bool {
    |state: CleanupState, reply: CleanupReply|
        state.stage is List && (reply matches CleanupReply::Listed(Ok(list)) && list@ == entries)
}

/// The removal of the file at `path` was asked for, and answered.
pub open spec fn removal_of(path: Seq<u8>) -> spec_fn(CleanupState, CleanupReply) -> bool {
    |state: CleanupState, reply: CleanupReply|
        {
            &&& state.stage matches CleanupWait::Remove(i) && 0 <= i < state.entries.len()
                && state.entry_path(i) == path
            &&& reply is Removed
        }
}

/// Once the target has been listed, the cleanup keeps to that listing.
proof fn lemma_listing_stays(
    start: CleanupState,
    replies: Seq<CleanupReply>,
    entries: Seq<TargetEntry>,
    m: int,
)
    requires
        start.stage is List,
        start.entries.len() == 0,
        0 <= m < replies.len(),
        was_listed(entries)(cleanup_after(start, replies.take(m)), replies[m]),
    ensures
        cleanup_after(start, replies).entries == entries,
        !(cleanup_after(start, replies).stage is List),
    decreases replies.len(),
{
    let earlier = replies.drop_last();
    let before = cleanup_after(start, earlier);
    if m == replies.len() - 1 {
        assert(replies.take(m) == earlier);
        lemma_onward_stage(CleanupState { entries, ..before }, 0);
        lemma_onward_keeps(CleanupState { entries, ..before }, 0);
    } else {
        assert(earlier.take(m) == replies.take(m));
        assert(earlier[m] == replies[m]);
        lemma_listing_stays(start, earlier, entries, m);
        match (before.stage, replies.last()) {
            (CleanupWait::Log(_, i), CleanupReply::Logged) => {
                lemma_onward_stage(before, i);
                lemma_onward_keeps(before, i);
            },
            _ => {},
        }
    }
}

proof fn lemma_onward_stage(state: CleanupState, i: int)
    ensures
        !(state.onward(i).stage is List),
    decreases state.entries.len() - i,
{
    if 0 <= i < state.entries.len() && !(state.entries[i] is Broken) && !state.is_due(
        state.entries[i],
    ) {
        lemma_onward_stage(state, i + 1);
    }
}

/// Until the target has been listed, the cleanup waits for that.
proof fn lemma_before_listing(start: CleanupState, replies: Seq<CleanupReply>, m: int)
    requires
        start.stage is List,
        start.entries.len() == 0,
        0 <= m <= replies.len(),
        cleanup_after(start, replies).stage is List,
    ensures
        cleanup_after(start, replies.take(m)).stage is List,
    decreases replies.len(),
{
    if m == replies.len() {
        assert(replies.take(m) == replies);
    } else {
        let earlier = replies.drop_last();
        let before = cleanup_after(start, earlier);
        assert(earlier.take(m) == replies.take(m));
        if !(before.stage is List) {
            lemma_cleanup_keeps(before, replies.last());
            match (before.stage, replies.last()) {
                (CleanupWait::Log(_, i), CleanupReply::Logged) => {
                    lemma_onward_stage(before, i);
                },
                _ => {},
            }
        }
        lemma_before_listing(start, earlier, m);
    }
}

/// A cleanup that is over has tried to remove, of everything that the target was
/// told to hold, each regular file that is called as an archive of the run's name
/// and whose stamp, not the run's own, lies further back than the period: however
/// many entries there are, and wherever among them it stands.
pub proof fn law_every_listed_archive_is_judged(
    start: CleanupState,
    replies: Seq<CleanupReply>,
    entries: Seq<TargetEntry>,
    i: int,
    seconds: int,
    n: u64,
)
    requires
        start.stage is List,
        start.entries.len() == 0,
        cleanup_after(start, replies).stage is Done,
        cleanup_happened(start, replies, was_listed(entries)),
        0 <= i < entries.len(),
        entries[i] matches TargetEntry::Named(name, EntryKind::Regular) && is_archive_of(
            shown(name@),
            start.name,
            seconds,
        ),
        stamp_text(seconds * 1_000_000_000) != start.own_stamp,
        ({
            let age = start.now - seconds * 1_000_000_000;
            ||| start.period == RetentionPeriod::Hours(n) && age > (n as int) * 3600 * 1_000_000_000
            ||| start.period == RetentionPeriod::Days(n) && age > (n as int) * 86400 * 1_000_000_000
        }),
    ensures
        cleanup_happened(
            start,
            replies,
            removal_of(child(start.dir, entries[i]->Named_0@)),
        ),
{
    let next = |state: CleanupState, reply: CleanupReply| state.next(reply);
    let what = was_listed(entries);
    let m = choose|m: int| #[trigger] happened_at(start, next, replies, what, m);
    lemma_listing_stays(start, replies, entries, m);
    let name = entries[i]->Named_0;
    law_expired_archives_are_these(shown(name@), start.name, start.own_stamp, start.now, n);
    assert(start.is_due(entries[i]));
    law_cleanup_misses_nothing(start, replies, i);
    let tried = removal_tried(i);
    let k = choose|k: int| #[trigger] happened_at(start, next, replies, tried, k);
    lemma_cleanup_history(start, replies.take(k));
    // The removal was asked for after the listing.
    if k <= m {
        assert(cleanup_after(start, replies.take(m)).stage is List);
        assert(replies.take(m).take(k) == replies.take(k));
        lemma_before_listing(start, replies.take(m), k);
        assert(false);
    }
    assert(replies.take(k).take(m) == replies.take(m));
    assert(replies.take(k)[m] == replies[m]);
    lemma_listing_stays(start, replies.take(k), entries, m);
    assert(happened_at(
        start,
        next,
        replies,
        removal_of(child(start.dir, name@)),
        k,
    ));
}

/// Whatever a cleanup removes, the target was told to hold: a regular file, called
/// as an archive of the run's name, of a second whose stamp is not the run's own,
/// further back than the period. Without a limit it removes nothing.
pub proof fn law_nothing_else_is_removed(start: CleanupState, replies: Seq<CleanupReply>, i: int)
    requires
        start.stage is List,
        start.entries.len() == 0,
        cleanup_after(start, replies).stage == CleanupWait::Remove(i),
    ensures
        ({
            let state = cleanup_after(start, replies);
            &&& 0 <= i < state.entries.len()
            &&& state.entries[i] matches TargetEntry::Named(name, EntryKind::Regular)
                && state.entry_path(i) == child(start.dir, name@) && exists|seconds: int| #[trigger]
                is_archive_of(shown(name@), start.name, seconds) && stamp_text(
                    seconds * 1_000_000_000,
                ) != start.own_stamp && match start.period {
                    RetentionPeriod::Unlimited => false,
                    RetentionPeriod::Hours(n) => start.now - seconds * 1_000_000_000 > (n as int)
                        * 3600 * 1_000_000_000,
                    RetentionPeriod::Days(n) => start.now - seconds * 1_000_000_000 > (n as int)
                        * 86400 * 1_000_000_000,
                }
        }),
{
    law_only_expired_archives_are_removed(start, replies, i);
    lemma_cleanup_history(start, replies);
    let state = cleanup_after(start, replies);
    let name = state.entries[i]->Named_0;
    let n: u64 = match start.period {
        RetentionPeriod::Unlimited => 0,
        RetentionPeriod::Hours(n) => n,
        RetentionPeriod::Days(n) => n,
    };
    law_expired_archives_are_these(shown(name@), start.name, start.own_stamp, start.now, n);
}

/// A cleanup begins with what it was asked: the target, the name, the run's own
/// stamp, the moment and the period, and a listing still to come.
pub proof fn law_cleanup_begins_as_asked(
    dir: Seq<u8>,
    name: Seq<char>,
    own_stamp: Seq<char>,
    now: int,
    period: RetentionPeriod,
)
    ensures
        ({
            let start = cleanup_start(dir, name, own_stamp, now, period);
            &&& start.dir == dir && start.name == name && start.own_stamp == own_stamp
            &&& start.now == now && start.period == period
            &&& start.stage is List && start.entries.len() == 0
        }),
{
}

/// A summary tells how many targets of how many have failed, and every one of the
/// failures, a semicolon between each two.
pub proof fn law_summaries_tell_every_failure(failures: Seq<Seq<char>>, total: nat)
    ensures
        failure_summary(failures, total) == "delivery failed for "@ + decimal(failures.len())
            + " of "@ + decimal(total) + " target(s): "@ + joined(failures, "; "@),
{
}

/// A step of a copy that fails leads to the removal of the incomplete copy, and then
/// to a failure that tells the cause whole.
pub proof fn law_failed_copies_tell_why(state: OneState, cause: Failure, chain: Seq<Seq<char>>)
    ensures
        state.stage is Copy || state.stage is Sync || state.stage is Rename ==> {
            let then = state.next(OneReply::Did(Err(cause))).stage;
            then is DropPart && tells(then->DropPart_0, cause@)
        },
        state.stage == OneWait::DropPart(chain) ==> state.next(OneReply::Dropped).stage
            == OneWait::Done(Err::<(), Seq<Seq<char>>>(chain)),
{
}

/// A delivery takes its targets in turn, whatever their number: it begins with the
/// first, checks each, then copies to each that does not hold the file; what it
/// cannot serve it tells, with the target and the whole reason, and goes on.
pub proof fn law_targets_take_their_turns(state: DeliverState, found: bool, reply: OneReply)
    ensures
        state.stage matches DeliverWait::Check(taken) ==> {
            let told = taken.push(found);
            let then = state.next(DeliverReply::Found(found));
            &&& told.len() < state.targets.len() ==> then == (DeliverState {
                stage: DeliverWait::Check(told),
                ..state
            })
            &&& told.len() == state.targets.len() && !(exists|k: int|
                0 <= k < told.len() && #[trigger] told[k]) ==> then == (DeliverState {
                stage: DeliverWait::Probe(0),
                ..state
            })
            &&& told.len() == state.targets.len() && (exists|k: int|
                0 <= k < told.len() && #[trigger] told[k]) ==> (then.stage matches
                DeliverWait::Done(Err(_)))
        },
        state.stage matches DeliverWait::Probe(i) ==> 0 <= i < state.targets.len() ==> {
            let dest = child(state.targets[i], encode_utf8(state.file_name));
            let part = child(
                state.targets[i],
                encode_utf8(state.file_name + ".part."@ + decimal(state.process)),
            );
            let missed = shown(state.targets[i]) + ": "@ + state.file_name + " already exists"@;
            let then = state.next(DeliverReply::Found(true));
            &&& state.next(DeliverReply::Found(false)) == (DeliverState {
                stage: DeliverWait::One(i, one_start(state.artifact, part, dest)),
                ..state
            })
            &&& then.failures == state.failures.push(missed)
            &&& i + 1 < state.targets.len() ==> then.stage == DeliverWait::Probe(i + 1)
        },
        state.stage matches DeliverWait::One(i, one) ==> 0 <= i < state.targets.len() ==> {
            let then = state.next(DeliverReply::One(reply));
            &&& match one.next(reply).stage {
                OneWait::Done(Ok(_)) => {
                    &&& then.failures == state.failures
                    &&& then.delivered == state.delivered.push(
                        child(state.targets[i], encode_utf8(state.file_name)),
                    )
                },
                OneWait::Done(Err(chain)) => {
                    &&& then.delivered == state.delivered
                    &&& then.failures == state.failures.push(
                        shown(state.targets[i]) + ": "@ + joined(chain, ": "@),
                    )
                },
                _ => then == (DeliverState {
                    stage: DeliverWait::One(i, one.next(reply)),
                    ..state
                }),
            }
            &&& one.next(reply).stage is Done && i + 1 < state.targets.len() ==> then.stage
                == DeliverWait::Probe(i + 1)
            &&& one.next(reply).stage is Done && i + 1 == state.targets.len()
                && then.failures.len() == 0 ==> then.stage == DeliverWait::Done(
                Ok::<Seq<Seq<u8>>, Seq<Seq<char>>>(then.delivered),
            )
            &&& one.next(reply).stage is Done && i + 1 == state.targets.len()
                && then.failures.len() > 0 ==> then.stage == DeliverWait::Done(
                Err::<Seq<Seq<u8>>, Seq<Seq<char>>>(
                    seq![failure_summary(then.failures, state.targets.len())],
                ),
            )
        },
{
    if let DeliverWait::Check(taken) = state.stage {
        let told = taken.push(found);
        if told.len() == state.targets.len() {
            law_collisions_are_told_exactly(state.targets, told, state.file_name, 0);
        }
    }
    if let DeliverWait::Probe(i) = state.stage {
        let missed = shown(state.targets[i]) + ": "@ + state.file_name + " already exists"@;
        assert(missed == shown(state.targets[i]) + ": "@ + (state.file_name
            + " already exists"@));
    }
}

/// A delivery begins with the artifact's own name and all the targets, in order, and
/// with the check of the first of them; it cannot begin without such a name.
pub proof fn law_deliveries_begin_as_asked(artifact: Seq<u8>, targets: Seq<Seq<u8>>, process: nat)
    ensures
        ({
            let start = deliver_start(artifact, targets, process);
            &&& start.artifact == artifact && start.targets == targets && start.process == process
            &&& start.delivered.len() == 0 && start.failures.len() == 0
            &&& file_name_of(artifact) matches Some(name) ==> start.file_name == shown(name)
            &&& file_name_of(artifact) is Some && targets.len() > 0 ==> start.stage
                == DeliverWait::Check(Seq::empty())
            &&& file_name_of(artifact) is None ==> (start.stage matches DeliverWait::Done(Err(_)))
        }),
{
}

/// What a cleanup does is told, entry by entry, and it goes on behind that entry
/// whatever became of it: a target that cannot be read is left as it is.
pub proof fn law_cleanup_tells_and_goes_on(state: CleanupState, cause: Failure, i: int, j: int)
    ensures
        state.stage == CleanupWait::Remove(i) && 0 <= i < state.entries.len() ==> {
            let path = shown(state.entry_path(i));
            &&& state.next(CleanupReply::Removed(Ok(()))).stage == CleanupWait::Log(
                "retention: removed "@ + path,
                i + 1,
            )
            &&& state.next(CleanupReply::Removed(Err(cause))).stage == CleanupWait::Log(
                "retention: warning: cannot remove "@ + path + " ("@ + headline_of(cause@)
                    + "); keeping it"@,
                i + 1,
            )
        },
        state.stage is Log && state.stage->Log_1 == j && j >= 0 ==> {
            let then = state.next(CleanupReply::Logged);
            &&& then.entries == state.entries
            &&& then.stage matches CleanupWait::Remove(k) ==> j <= k < state.entries.len()
            &&& then.stage matches CleanupWait::Log(_, k) ==> j < k <= state.entries.len()
            &&& !(then.stage is List)
        },
        state.stage is List ==> {
            let then = state.next(CleanupReply::Listed(Err(cause)));
            then.stage is Log && then.stage->Log_1 == 0 && then.entries.len() == 0
        },
{
    if state.stage is Log && state.stage->Log_1 == j && j >= 0 {
        lemma_onward_moves(state, j);
        lemma_onward_stage(state, j);
        lemma_onward_keeps(state, j);
    }
}

proof fn lemma_onward_moves(state: CleanupState, i: int)
    requires
        0 <= i,
    ensures
        state.onward(i).stage matches CleanupWait::Remove(k) ==> i <= k < state.entries.len(),
        state.onward(i).stage matches CleanupWait::Log(_, k) ==> i < k <= state.entries.len(),
    decreases state.entries.len() - i,
{
    if i < state.entries.len() && !(state.entries[i] is Broken) && !state.is_due(
        state.entries[i],
    ) {
        lemma_onward_moves(state, i + 1);
    }
}

/// A refusal for what the targets hold names the file and every target that holds
/// it, a comma between each two.
pub proof fn law_collisions_are_all_named(
    targets: Seq<Seq<u8>>,
    taken: Seq<bool>,
    more: Seq<u8>,
    also: bool,
    file_name: Seq<char>,
)
    requires
        taken.len() == targets.len(),
    ensures
        collisions(targets.push(more), taken.push(also)) == if also {
            collisions(targets, taken).push(shown(more))
        } else {
            collisions(targets, taken)
        },
        collision_problem(targets, taken, file_name) matches Some(chain) ==> chain == seq![
            "target(s) already contain "@ + file_name + ": "@ + joined(
                collisions(targets, taken),
                ", "@,
            )
                + "; remove them or run later (a same-second run would overwrite a previous backup)"@,
        ],
{
    assert(targets.push(more).drop_last() == targets);
    lemma_collisions_of_the_first(targets, taken, also);
}

proof fn lemma_collisions_of_the_first(targets: Seq<Seq<u8>>, taken: Seq<bool>, also: bool)
    requires
        targets.len() <= taken.len(),
    ensures
        collisions(targets, taken.push(also)) == collisions(targets, taken),
    decreases targets.len(),
{
    if targets.len() > 0 {
        lemma_collisions_of_the_first(targets.drop_last(), taken, also);
    }
}

/// A copy begins with the artifact, the place where it is written and the place
/// where it goes, and keeps to them, whatever it is replied.
pub proof fn law_copies_begin_as_asked(
    artifact: Seq<u8>,
    part: Seq<u8>,
    dest: Seq<u8>,
    state: OneState,
    reply: OneReply,
)
    ensures
        ({
            let start = one_start(artifact, part, dest);
            &&& start.artifact == artifact && start.part == part && start.dest == dest
            &&& start.stage is Copy
        }),
        state.next(reply).artifact == state.artifact,
        state.next(reply).part == state.part,
        state.next(reply).dest == state.dest,
        state.stage is Done ==> state.next(reply) == state,
{
}

/// What a delivery asks about is the file's own place: in the next target while the
/// targets are checked, and in the target whose turn it is before it is served.
pub proof fn law_the_files_own_place_is_asked_about(state: DeliverState, i: int)
    requires
        0 <= i < state.targets.len(),
    ensures
        ({
            let place = child(state.targets[i], encode_utf8(state.file_name));
            &&& state.stage matches DeliverWait::Check(taken) ==> taken.len() == i
                ==> state.probed() == Some(place)
            &&& state.stage == DeliverWait::Probe(i) ==> state.probed() == Some(place)
            &&& state.stage is One || state.stage is Done ==> state.probed() is None
        }),
{
}

} // verus!
