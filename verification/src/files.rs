//! Everything except the database: the walk that brings every regular file under
//! the source directory into the archive.
//!
//! The walk decides; what touches the file system is done by whoever drives it.
//! Its stage says what it waits for, and `resume` takes the reply.
//!
//! The database file and its `-wal`/`-shm` sidecars are skipped because the
//! snapshot already holds whatever they held.

use vstd::prelude::*;

use crate::failure::{in_context, tells, Failure};
use crate::foresee::below;
use crate::header::EntryHeader;
use crate::order::{
    bytes_le, law_sorting_only_rearranges, lemma_names_are_ordered, sort_names, sorted_names,
};
use crate::path::{about, byte_strings, child, shown, text_of, FilePath};
use crate::text::{
    decimal, joined, law_joining_concatenates, number_text, same_text, starts_with,
};
use crate::trace::after;

verus! {

/// A moment of the file system: seconds since the epoch, rounded down, and the
/// nanoseconds on top of them.
#[derive(Debug, Clone, Copy, PartialEq, Eq, Structural)]
pub struct FileTime {
    pub seconds: i64,
    pub nanos: u32,
}

/// What a path leads to, links not followed.
#[derive(Debug, Clone, Copy, PartialEq, Eq, Structural)]
pub enum FileKind {
    Regular,
    Directory,
    Symlink,
    Special,
}

/// What the file system says of a file.
#[derive(Debug)]
pub struct FileMeta {
    pub kind: FileKind,
    pub len: u64,
    pub mode: u32,
    /// The modification time, where it can be told.
    pub modified: Result<FileTime, Failure>,
}

/// The modification time, where it can be told.
pub open spec fn told_time(meta: FileMeta) -> Option<FileTime> {
    match meta.modified {
        Ok(time) => Some(time),
        Err(_) => None,
    }
}

/// Whether `after` looks different from `before`: another size, or another
/// modification time. A time that can be told neither before nor after counts as
/// the same.
pub open spec fn changed(before: FileMeta, after: FileMeta) -> bool {
    after.len != before.len || told_time(after) != told_time(before)
}

/// Whether `after` looks different from `before`.
pub fn file_changed(before: &FileMeta, after: &FileMeta) -> (r: bool)
    ensures
        r == changed(*before, *after),
{
    if after.len != before.len {
        return true;
    }
    match (&after.modified, &before.modified) {
        (Ok(a), Ok(b)) => *a != *b,
        (Err(_), Err(_)) => false,
        _ => true,
    }
}

/// Seconds since the epoch, or why there are none: a moment before the epoch
/// counts as the epoch.
pub open spec fn mtime(meta: FileMeta, path: Seq<u8>) -> Result<u64, Seq<Seq<char>>> {
    match meta.modified {
        Ok(time) => Ok(
            if time.seconds < 0 {
                0
            } else {
                time.seconds as u64
            },
        ),
        Err(cause) => Err(in_context("read mtime of "@ + shown(path), cause@)),
    }
}

/// Modification time as seconds since the epoch.
pub fn mtime_of(meta: &FileMeta, path: &FilePath) -> (r: Result<u64, Failure>)
    ensures
        match r {
            Ok(seconds) => mtime(*meta, path@) == Ok::<u64, Seq<Seq<char>>>(seconds),
            Err(failure) => mtime(*meta, path@) == Err::<u64, Seq<Seq<char>>>(failure@),
        },
{
    match &meta.modified {
        Ok(time) => if time.seconds < 0 {
            Ok(0)
        } else {
            Ok(time.seconds as u64)
        },
        Err(cause) => {
            let mut message = "read mtime of ".to_string();
            message.append(path.display().as_str());
            Err(cause.clone().context(message))
        },
    }
}

/// A place in the walk: the name that it has in the archive, and its path.
#[derive(Debug)]
pub struct Place {
    pub arc_name: String,
    pub path: FilePath,
}

/// What a place stands for.
pub ghost struct Spot {
    pub arc: Seq<char>,
    pub path: Seq<u8>,
}

impl View for Place {
    type V = Spot;

    open spec fn view(&self) -> Spot {
        Spot { arc: self.arc_name@, path: self.path@ }
    }
}

pub open spec fn spots(list: Seq<Place>) -> Seq<Spot> {
    list.map_values(|p: Place| p@)
}

/// Whether an entry of the directory `root` is the database or a sidecar of it.
/// That is so at the archive's root only: deeper files of the same name are
/// ordinary files.
pub open spec fn is_database(root: Seq<char>, name: Seq<char>, db_name: Seq<char>) -> bool {
    root.len() == 0 && (name == db_name || (db_name + "-"@).is_prefix_of(name))
}

/// The place of the entry `name` of a directory. At the archive's root an entry
/// gains no leading slash.
pub open spec fn child_spot(root: Spot, name: Seq<u8>) -> Spot {
    Spot {
        arc: if root.arc.len() == 0 {
            shown(name)
        } else {
            root.arc + "/"@ + shown(name)
        },
        path: child(root.path, name),
    }
}

/// The places of the entries `names` of a directory, in that order, the database
/// left out.
pub open spec fn kept_children(root: Spot, names: Seq<Seq<u8>>, db_name: Seq<char>) -> Seq<Spot>
    decreases names.len(),
{
    if names.len() == 0 {
        Seq::empty()
    } else {
        let rest = kept_children(root, names.skip(1), db_name);
        if is_database(root.arc, shown(names[0]), db_name) {
            rest
        } else {
            seq![child_spot(root, names[0])] + rest
        }
    }
}

/// The places of a directory's entries, ascending by name.
pub open spec fn children(root: Spot, names: Seq<Seq<u8>>, db_name: Seq<char>) -> Seq<Spot> {
    kept_children(root, sorted_names(names), db_name)
}

/// Push the entries `names` of the directory `dir` in descending order, so that
/// they are popped in ascending order.
pub fn push_children(stack: &mut Vec<Place>, dir: &Place, names: Vec<Vec<u8>>, db_name: &str)
    ensures
        spots(final(stack)@) == spots(old(stack)@) + children(
            dir@,
            byte_strings(names@),
            db_name@,
        ).reverse(),
{
    let ghost before = spots(stack@);
    let entries = sort_names(names);
    let ghost all = byte_strings(entries@);
    let mut sidecar = db_name.to_string();
    sidecar.append("-");
    let mut i: usize = entries.len();
    assert(all.skip(i as int) == Seq::<Seq<u8>>::empty());
    assert(spots(stack@) == before + kept_children(dir@, all.skip(i as int), db_name@).reverse());
    while i > 0
        invariant
            i <= entries@.len(),
            all == byte_strings(entries@),
            sidecar@ == db_name@ + "-"@,
            spots(stack@) == before + kept_children(dir@, all.skip(i as int), db_name@).reverse(),
        decreases i,
    {
        i = i - 1;
        let ghost pushed = spots(stack@);
        let ghost rest = kept_children(dir@, all.skip(i + 1), db_name@);
        assert(all.skip(i as int).skip(1) == all.skip(i + 1));
        assert(all.skip(i as int)[0] == entries@[i as int]@);
        let name = text_of(&entries[i]);
        let at_root = dir.arc_name.as_str().is_empty();
        if !(at_root && (same_text(name.as_str(), db_name) || starts_with(
            name.as_str(),
            sidecar.as_str(),
        ))) {
            let arc_name = if at_root {
                name
            } else {
                let mut text = dir.arc_name.clone();
                text.append("/");
                text.append(name.as_str());
                text
            };
            let place = Place { arc_name, path: dir.path.child(&entries[i]) };
            let ghost spot = place@;
            stack.push(place);
            assert(spots(stack@) == pushed.push(spot));
            assert((seq![spot] + rest).reverse() == rest.reverse().push(spot));
        }
    }
    assert(all.skip(0) == all);
}

/// What became of reading a directory.
#[derive(Debug)]
pub enum DirEntries {
    /// The directory cannot be read.
    Unreadable(Failure),
    /// One of its entries cannot be read.
    BrokenEntry(Failure),
    /// The names in it, in no particular order.
    Names(Vec<Vec<u8>>),
}

/// What the walk waits for.
#[derive(Debug)]
pub enum WalkStage {
    /// Read the directory.
    List(Place),
    /// Look at the path, without following a link.
    Stat(Place),
    /// Tell whether the directory is empty.
    Probe(Place),
    /// Print a warning.
    Warn(String),
    /// Open the file, of which the walk saw this length.
    Open(Place, u64),
    /// Look at the file that was opened.
    StatOpened(Place, u64),
    /// Append the opened file, which looked like this when it was opened.
    Append(Place, FileMeta, EntryHeader),
    /// Look at the path again.
    StatAgain(Place, FileMeta),
    /// The walk is over.
    Done(Result<(), Failure>),
}

/// What the walk waits for, in mathematical terms.
pub ghost enum WalkWait {
    List(Spot),
    Stat(Spot),
    Probe(Spot),
    Warn(Seq<char>),
    Open(Spot, u64),
    StatOpened(Spot, u64),
    Append(Spot, FileMeta, EntryHeader),
    StatAgain(Spot, FileMeta),
    Done(Result<(), Seq<Seq<char>>>),
}

impl View for WalkStage {
    type V = WalkWait;

    open spec fn view(&self) -> WalkWait {
        match *self {
            WalkStage::List(place) => WalkWait::List(place@),
            WalkStage::Stat(place) => WalkWait::Stat(place@),
            WalkStage::Probe(place) => WalkWait::Probe(place@),
            WalkStage::Warn(text) => WalkWait::Warn(text@),
            WalkStage::Open(place, len) => WalkWait::Open(place@, len),
            WalkStage::StatOpened(place, len) => WalkWait::StatOpened(place@, len),
            WalkStage::Append(place, meta, header) => WalkWait::Append(place@, meta, header),
            WalkStage::StatAgain(place, meta) => WalkWait::StatAgain(place@, meta),
            WalkStage::Done(Ok(_)) => WalkWait::Done(Ok(())),
            WalkStage::Done(Err(failure)) => WalkWait::Done(Err(failure@)),
        }
    }
}

/// A reply to what the walk waited for.
#[derive(Debug)]
pub enum WalkReply {
    /// The directory was read.
    Listed(DirEntries),
    /// The path, or the opened file, was looked at.
    Meta(Result<FileMeta, Failure>),
    /// Whether the directory is empty.
    Empty(Result<bool, Failure>),
    /// The warning was printed.
    Warned,
    /// The file was opened.
    Opened(Result<(), Failure>),
    /// The file was appended.
    Appended(Result<(), Failure>),
}

/// The walk through a source directory.
#[derive(Debug)]
pub struct Walk {
    pub db_name: String,
    /// What is still to be visited, the next on top.
    pub stack: Vec<Place>,
    pub stage: WalkStage,
}

/// The walk, in mathematical terms.
pub ghost struct WalkState {
    pub db_name: Seq<char>,
    pub stack: Seq<Spot>,
    pub stage: WalkWait,
}

impl View for Walk {
    type V = WalkState;

    open spec fn view(&self) -> WalkState {
        WalkState { db_name: self.db_name@, stack: spots(self.stack@), stage: self.stage@ }
    }
}

pub open spec fn walk_start(source: Seq<u8>, db_name: Seq<char>) -> WalkState {
    WalkState {
        db_name,
        stack: Seq::empty(),
        stage: WalkWait::List(Spot { arc: Seq::empty(), path: source }),
    }
}

impl WalkState {
    /// The walk at another stage.
    pub open spec fn at(self, stage: WalkWait) -> WalkState {
        WalkState { stage, ..self }
    }

    /// The walk once it has failed.
    pub open spec fn failed(self, chain: Seq<Seq<char>>) -> WalkState {
        self.at(WalkWait::Done(Err(chain)))
    }

    /// On to the place on top of the stack; without one the walk is over.
    pub open spec fn onward(self) -> WalkState {
        if self.stack.len() == 0 {
            self.at(WalkWait::Done(Ok(())))
        } else {
            WalkState {
                stack: self.stack.drop_last(),
                stage: WalkWait::Stat(self.stack.last()),
                ..self
            }
        }
    }

    /// The walk after the reply to what it waited for. Any other reply leaves it
    /// waiting.
    pub open spec fn next(self, reply: WalkReply) -> WalkState {
        match (self.stage, reply) {
            (WalkWait::List(spot), WalkReply::Listed(entries)) => match entries {
                DirEntries::Unreadable(cause) => self.failed(
                    in_context("read directory "@ + shown(spot.path), cause@),
                ),
                DirEntries::BrokenEntry(cause) => self.failed(cause@),
                DirEntries::Names(names) => WalkState {
                    stack: self.stack + children(
                        spot,
                        byte_strings(names@),
                        self.db_name,
                    ).reverse(),
                    ..self
                }.onward(),
            },
            (WalkWait::Stat(spot), WalkReply::Meta(result)) => match result {
                Err(cause) => self.failed(in_context("stat "@ + shown(spot.path), cause@)),
                Ok(meta) => match meta.kind {
                    FileKind::Symlink => self.at(
                        WalkWait::Warn("warning: skipping symlink "@ + shown(spot.path)),
                    ),
                    FileKind::Special => self.at(
                        WalkWait::Warn("warning: skipping special file "@ + shown(spot.path)),
                    ),
                    FileKind::Directory => self.at(WalkWait::Probe(spot)),
                    FileKind::Regular => self.at(WalkWait::Open(spot, meta.len)),
                },
            },
            (WalkWait::Probe(spot), WalkReply::Empty(result)) => match result {
                Err(cause) => self.failed(cause@),
                Ok(empty) => if empty {
                    self.at(
                        WalkWait::Warn(
                            "warning: skipping empty directory "@ + shown(spot.path),
                        ),
                    )
                } else {
                    self.at(WalkWait::List(spot))
                },
            },
            (WalkWait::Warn(_), WalkReply::Warned) => self.onward(),
            (WalkWait::Open(spot, len), WalkReply::Opened(result)) => match result {
                Err(cause) => self.failed(
                    in_context("open file "@ + shown(spot.path), cause@),
                ),
                Ok(_) => self.at(WalkWait::StatOpened(spot, len)),
            },
            (WalkWait::StatOpened(spot, len), WalkReply::Meta(result)) => match result {
                Err(cause) => self.failed(in_context("stat "@ + shown(spot.path), cause@)),
                Ok(opened) => if opened.len != len {
                    self.failed(
                        seq![
                            "file "@ + shown(spot.path)
                                + " changed while being archived (size "@ + decimal(len as nat)
                                + " -> "@ + decimal(opened.len as nat) + "); re-run the backup"@,
                        ],
                    )
                } else {
                    match mtime(opened, spot.path) {
                        Err(chain) => self.failed(chain),
                        Ok(seconds) => self.at(
                            WalkWait::Append(
                                spot,
                                opened,
                                EntryHeader {
                                    size: opened.len,
                                    mode: permission_bits(opened.mode),
                                    mtime: seconds,
                                },
                            ),
                        ),
                    }
                },
            },
            (WalkWait::Append(spot, opened, _), WalkReply::Appended(result)) => match result {
                Err(cause) => self.failed(in_context("append "@ + spot.arc, cause@)),
                Ok(_) => self.at(WalkWait::StatAgain(spot, opened)),
            },
            (WalkWait::StatAgain(spot, opened), WalkReply::Meta(result)) => match result {
                Err(cause) => self.failed(in_context("stat "@ + shown(spot.path), cause@)),
                Ok(after) => if changed(opened, after) {
                    self.failed(
                        seq![
                            "file "@ + shown(spot.path)
                                + " changed while being archived; re-run the backup"@,
                        ],
                    )
                } else {
                    self.onward()
                },
            },
            _ => self,
        }
    }
}

/// The twelve permission bits of a mode.
pub open spec fn permission_bits(mode: u32) -> u32 {
    (mode % 4096) as u32
}

/// Begin the walk through `source`, leaving out its database `db_name`: every
/// regular file goes into the archive, the directory's contents directly at the
/// archive's root.
pub fn write(source: &FilePath, db_name: &str) -> (r: Walk)
    ensures
        r@ == walk_start(source@, db_name@),
{
    let arc_name = String::new();
    let walk = Walk {
        db_name: db_name.to_string(),
        stack: Vec::new(),
        stage: WalkStage::List(Place { arc_name, path: source.clone() }),
    };
    assert(spots(walk.stack@) == Seq::<Spot>::empty());
    assert(arc_name@ == Seq::<char>::empty());
    walk
}

impl Walk {
    fn onward(self) -> (r: Walk)
        ensures
            r@ == self@.onward(),
    {
        let Walk { db_name, mut stack, stage } = self;
        let ghost before = spots(stack@);
        match stack.pop() {
            None => Walk { db_name, stack, stage: WalkStage::Done(Ok(())) },
            Some(place) => {
                assert(spots(stack@) == before.drop_last());
                assert(place@ == before.last());
                Walk { db_name, stack, stage: WalkStage::Stat(place) }
            },
        }
    }

    /// Take the reply to what the walk waited for.
    pub fn resume(self, reply: WalkReply) -> (r: Walk)
        ensures
            r@ == self@.next(reply),
    {
        let Walk { db_name, stack, stage } = self;
        match (stage, reply) {
            (WalkStage::List(place), WalkReply::Listed(entries)) => {
                let mut stack = stack;
                match entries {
                    DirEntries::Unreadable(cause) => {
                        let failure = cause.context(about("read directory ", &place.path));
                        Walk { db_name, stack, stage: WalkStage::Done(Err(failure)) }
                    },
                    DirEntries::BrokenEntry(cause) => Walk {
                        db_name,
                        stack,
                        stage: WalkStage::Done(Err(cause)),
                    },
                    DirEntries::Names(names) => {
                        push_children(&mut stack, &place, names, db_name.as_str());
                        Walk { db_name, stack, stage: WalkStage::Done(Ok(())) }.onward()
                    },
                }
            },
            (WalkStage::Stat(place), WalkReply::Meta(result)) => {
                let stage = match result {
                    Err(cause) => WalkStage::Done(Err(cause.context(about("stat ", &place.path)))),
                    Ok(meta) => match meta.kind {
                        FileKind::Symlink => WalkStage::Warn(
                            about("warning: skipping symlink ", &place.path),
                        ),
                        FileKind::Special => WalkStage::Warn(
                            about("warning: skipping special file ", &place.path),
                        ),
                        FileKind::Directory => WalkStage::Probe(place),
                        FileKind::Regular => WalkStage::Open(place, meta.len),
                    },
                };
                Walk { db_name, stack, stage }
            },
            (WalkStage::Probe(place), WalkReply::Empty(result)) => {
                let stage = match result {
                    Err(cause) => WalkStage::Done(Err(cause)),
                    Ok(empty) => if empty {
                        WalkStage::Warn(about("warning: skipping empty directory ", &place.path))
                    } else {
                        WalkStage::List(place)
                    },
                };
                Walk { db_name, stack, stage }
            },
            (WalkStage::Warn(text), WalkReply::Warned) => Walk {
                db_name,
                stack,
                stage: WalkStage::Warn(text),
            }.onward(),
            (WalkStage::Open(place, len), WalkReply::Opened(result)) => {
                let stage = match result {
                    Err(cause) => WalkStage::Done(
                        Err(cause.context(about("open file ", &place.path))),
                    ),
                    Ok(_) => WalkStage::StatOpened(place, len),
                };
                Walk { db_name, stack, stage }
            },
            (WalkStage::StatOpened(place, len), WalkReply::Meta(result)) => {
                let stage = match result {
                    Err(cause) => WalkStage::Done(Err(cause.context(about("stat ", &place.path)))),
                    Ok(opened) => opened_stage(place, len, opened),
                };
                Walk { db_name, stack, stage }
            },
            (WalkStage::Append(place, opened, header), WalkReply::Appended(result)) => {
                let stage = match result {
                    Err(cause) => {
                        let mut message = "append ".to_string();
                        message.append(place.arc_name.as_str());
                        WalkStage::Done(Err(cause.context(message)))
                    },
                    Ok(_) => WalkStage::StatAgain(place, opened),
                };
                Walk { db_name, stack, stage }
            },
            (WalkStage::StatAgain(place, opened), WalkReply::Meta(result)) => match result {
                Err(cause) => Walk {
                    db_name,
                    stack,
                    stage: WalkStage::Done(Err(cause.context(about("stat ", &place.path)))),
                },
                Ok(after) => if file_changed(&opened, &after) {
                    let mut message = about("file ", &place.path);
                    message.append(" changed while being archived; re-run the backup");
                    Walk { db_name, stack, stage: WalkStage::Done(Err(Failure::new(message))) }
                } else {
                    Walk { db_name, stack, stage: WalkStage::StatAgain(place, opened) }.onward()
                },
            },
            (stage, _) => Walk { db_name, stack, stage },
        }
    }
}

/// What follows once the opened file has been looked at.
fn opened_stage(place: Place, len: u64, opened: FileMeta) -> (r: WalkStage)
    ensures
        forall|state: WalkState|
            state.stage == WalkWait::StatOpened(place@, len) ==> #[trigger] state.next(
                WalkReply::Meta(Ok(opened)),
            ) == state.at(r@),
{
    if opened.len != len {
        let mut message = about("file ", &place.path);
        message.append(" changed while being archived (size ");
        message.append(number_text(len as u128).as_str());
        message.append(" -> ");
        message.append(number_text(opened.len as u128).as_str());
        message.append("); re-run the backup");
        return WalkStage::Done(Err(Failure::new(message)));
    }
    match mtime_of(&opened, &place.path) {
        Err(failure) => WalkStage::Done(Err(failure)),
        Ok(mtime) => {
            let mode: u32 = opened.mode % 4096;
            let header = EntryHeader { size: opened.len, mode, mtime };
            WalkStage::Append(place, opened, header)
        },
    }
}

/// A source directory that nobody changes: what its paths lead to, and what its
/// directories hold.
pub ghost struct Tree {
    pub meta: spec_fn(Seq<u8>) -> FileMeta,
    pub names: spec_fn(Seq<u8>) -> Seq<Seq<u8>>,
}

/// A file as it stands in the archive.
pub ghost struct ArchiveEntry {
    pub arc: Seq<char>,
    pub path: Seq<u8>,
    pub header: EntryHeader,
}

/// The entry of a regular file.
pub open spec fn entry_of(spot: Spot, meta: FileMeta) -> ArchiveEntry {
    ArchiveEntry {
        arc: spot.arc,
        path: spot.path,
        header: EntryHeader {
            size: meta.len,
            mode: permission_bits(meta.mode),
            mtime: mtime(meta, spot.path)->Ok_0,
        },
    }
}

impl Tree {
    /// The places in the directory at `spot`, ascending by name.
    pub open spec fn children(self, spot: Spot, db_name: Seq<char>) -> Seq<Spot> {
        children(spot, (self.names)(spot.path), db_name)
    }

    /// Whether directories nest at most `depth` levels deep at `spot`, and every
    /// file there can be archived.
    pub open spec fn within(self, spot: Spot, db_name: Seq<char>, depth: nat) -> bool
        decreases depth,
    {
        let meta = (self.meta)(spot.path);
        &&& meta.kind is Regular ==> meta.modified is Ok
        &&& meta.kind is Directory ==> depth > 0 && forall|i: int|
            0 <= i < self.children(spot, db_name).len() ==> self.within(
                #[trigger] self.children(spot, db_name)[i],
                db_name,
                (depth - 1) as nat,
            )
    }

    /// The regular files at and below `spot`, depth first, the entries of each
    /// directory ascending by name. Links, special files and empty directories
    /// leave nothing.
    pub open spec fn files_at(self, spot: Spot, db_name: Seq<char>, depth: nat) -> Seq<ArchiveEntry>
        decreases depth, 0nat,
    {
        let meta = (self.meta)(spot.path);
        match meta.kind {
            FileKind::Regular => seq![entry_of(spot, meta)],
            FileKind::Directory => if depth == 0 {
                Seq::empty()
            } else {
                self.files_in(self.children(spot, db_name), db_name, (depth - 1) as nat)
            },
            _ => Seq::empty(),
        }
    }

    /// The regular files at and below each of `list`, in that order.
    pub open spec fn files_in(self, list: Seq<Spot>, db_name: Seq<char>, depth: nat) -> Seq<
        ArchiveEntry,
    >
        decreases depth, list.len() + 1,
    {
        if list.len() == 0 {
            Seq::empty()
        } else {
            self.files_at(list[0], db_name, depth) + self.files_in(list.skip(1), db_name, depth)
        }
    }

    /// How many replies the walk takes at and below `spot`.
    pub open spec fn replies_at(self, spot: Spot, db_name: Seq<char>, depth: nat) -> nat
        decreases depth, 0nat,
    {
        match (self.meta)(spot.path).kind {
            FileKind::Regular => 5,
            FileKind::Directory => if depth == 0 {
                3
            } else {
                3 + self.replies_in(self.children(spot, db_name), db_name, (depth - 1) as nat)
            },
            _ => 2,
        }
    }

    /// How many replies the walk takes at and below all of `list`.
    pub open spec fn replies_in(self, list: Seq<Spot>, db_name: Seq<char>, depth: nat) -> nat
        decreases depth, list.len() + 1,
    {
        if list.len() == 0 {
            0
        } else {
            self.replies_at(list[0], db_name, depth) + self.replies_in(
                list.skip(1),
                db_name,
                depth,
            )
        }
    }

    /// Whether `reply` is what the tree answers to `stage`.
    pub open spec fn answers(self, stage: WalkWait, reply: WalkReply) -> bool {
        match stage {
            WalkWait::List(spot) => reply matches WalkReply::Listed(DirEntries::Names(names))
                && byte_strings(names@) == (self.names)(spot.path),
            WalkWait::Stat(spot) => reply == WalkReply::Meta(Ok((self.meta)(spot.path))),
            WalkWait::Probe(spot) => reply == WalkReply::Empty(
                Ok((self.names)(spot.path).len() == 0),
            ),
            WalkWait::Warn(_) => reply == WalkReply::Warned,
            WalkWait::Open(_, _) => reply == WalkReply::Opened(Ok(())),
            WalkWait::StatOpened(spot, _) => reply == WalkReply::Meta(Ok((self.meta)(spot.path))),
            WalkWait::Append(_, _, _) => reply == WalkReply::Appended(Ok(())),
            WalkWait::StatAgain(spot, _) => reply == WalkReply::Meta(Ok((self.meta)(spot.path))),
            WalkWait::Done(_) => false,
        }
    }
}

/// The walk from `start` after `replies`.
pub open spec fn walk_after(start: WalkState, replies: Seq<WalkReply>) -> WalkState {
    after(start, |state: WalkState, reply: WalkReply| state.next(reply), replies)
}

/// What one reply brings into the archive.
pub open spec fn brought(state: WalkState, reply: WalkReply) -> Seq<ArchiveEntry> {
    match (state.stage, reply) {
        (WalkWait::Append(spot, _, header), WalkReply::Appended(Ok(_))) => seq![
            ArchiveEntry { arc: spot.arc, path: spot.path, header },
        ],
        _ => Seq::empty(),
    }
}

/// What `replies` brought into the archive, in order.
pub open spec fn archived(start: WalkState, replies: Seq<WalkReply>) -> Seq<ArchiveEntry>
    decreases replies.len(),
{
    if replies.len() == 0 {
        Seq::empty()
    } else {
        archived(start, replies.drop_last()) + brought(
            walk_after(start, replies.drop_last()),
            replies.last(),
        )
    }
}

/// What the walk at a stage still has to bring from the place it is at.
spec fn due_here(tree: Tree, state: WalkState, depth: nat) -> Seq<ArchiveEntry> {
    match state.stage {
        WalkWait::List(spot) => tree.files_in(
            tree.children(spot, state.db_name),
            state.db_name,
            depth,
        ),
        WalkWait::Stat(spot) => tree.files_at(spot, state.db_name, depth),
        WalkWait::Probe(spot) => tree.files_at(spot, state.db_name, depth),
        WalkWait::Open(spot, _) => tree.files_at(spot, state.db_name, depth),
        WalkWait::StatOpened(spot, _) => tree.files_at(spot, state.db_name, depth),
        WalkWait::Append(spot, _, _) => tree.files_at(spot, state.db_name, depth),
        _ => Seq::empty(),
    }
}

/// How many replies the walk still takes at the place it is at.
spec fn left_here(tree: Tree, state: WalkState, depth: nat) -> int {
    match state.stage {
        WalkWait::List(spot) => tree.replies_in(
            tree.children(spot, state.db_name),
            state.db_name,
            depth,
        ) + 1int,
        WalkWait::Stat(spot) => tree.replies_at(spot, state.db_name, depth) as int,
        WalkWait::Probe(spot) => tree.replies_at(spot, state.db_name, depth) - 1,
        WalkWait::Warn(_) => 1,
        WalkWait::Open(_, _) => 4,
        WalkWait::StatOpened(_, _) => 3,
        WalkWait::Append(_, _, _) => 2,
        WalkWait::StatAgain(_, _) => 1,
        WalkWait::Done(_) => 0,
    }
}

/// How many replies the walk still takes.
spec fn left(tree: Tree, state: WalkState, depth: nat) -> int {
    left_here(tree, state, depth) + tree.replies_in(state.stack.reverse(), state.db_name, depth)
}

/// What the walk still has to bring.
spec fn due(tree: Tree, state: WalkState, depth: nat) -> Seq<ArchiveEntry> {
    due_here(tree, state, depth) + tree.files_in(state.stack.reverse(), state.db_name, depth)
}

/// Whether the walk is on its way through the tree.
spec fn on_course(tree: Tree, state: WalkState, depth: nat) -> bool {
    &&& forall|i: int|
        0 <= i < state.stack.len() ==> tree.within(#[trigger] state.stack[i], state.db_name, depth)
    &&& match state.stage {
        WalkWait::List(spot) => forall|i: int|
            0 <= i < tree.children(spot, state.db_name).len() ==> tree.within(
                #[trigger] tree.children(spot, state.db_name)[i],
                state.db_name,
                depth,
            ),
        WalkWait::Stat(spot) => tree.within(spot, state.db_name, depth),
        WalkWait::Probe(spot) => tree.within(spot, state.db_name, depth)
            && (tree.meta)(spot.path).kind is Directory,
        WalkWait::Warn(_) => true,
        WalkWait::Open(spot, len) => {
            &&& tree.within(spot, state.db_name, depth)
            &&& (tree.meta)(spot.path).kind is Regular
            &&& len == (tree.meta)(spot.path).len
        },
        WalkWait::StatOpened(spot, len) => {
            &&& tree.within(spot, state.db_name, depth)
            &&& (tree.meta)(spot.path).kind is Regular
            &&& len == (tree.meta)(spot.path).len
        },
        WalkWait::Append(spot, opened, header) => {
            &&& (tree.meta)(spot.path).kind is Regular
            &&& opened == (tree.meta)(spot.path)
            &&& header == entry_of(spot, opened).header
        },
        WalkWait::StatAgain(spot, opened) => opened == (tree.meta)(spot.path),
        WalkWait::Done(result) => result is Ok && state.stack.len() == 0,
    }
}

/// More levels than a place needs change nothing.
proof fn lemma_depth(tree: Tree, spot: Spot, db_name: Seq<char>, depth: nat, more: nat)
    requires
        tree.within(spot, db_name, depth),
        depth <= more,
    ensures
        tree.within(spot, db_name, more),
        tree.files_at(spot, db_name, depth) == tree.files_at(spot, db_name, more),
        tree.replies_at(spot, db_name, depth) == tree.replies_at(spot, db_name, more),
    decreases depth, 0nat,
{
    if (tree.meta)(spot.path).kind is Directory {
        let list = tree.children(spot, db_name);
        lemma_depth_of_list(tree, list, db_name, (depth - 1) as nat, (more - 1) as nat);
    }
}

proof fn lemma_depth_of_list(
    tree: Tree,
    list: Seq<Spot>,
    db_name: Seq<char>,
    depth: nat,
    more: nat,
)
    requires
        forall|i: int| 0 <= i < list.len() ==> tree.within(#[trigger] list[i], db_name, depth),
        depth <= more,
    ensures
        forall|i: int| 0 <= i < list.len() ==> tree.within(#[trigger] list[i], db_name, more),
        tree.files_in(list, db_name, depth) == tree.files_in(list, db_name, more),
        tree.replies_in(list, db_name, depth) == tree.replies_in(list, db_name, more),
    decreases depth, list.len() + 1,
{
    if list.len() > 0 {
        lemma_depth(tree, list[0], db_name, depth, more);
        lemma_depth_of_list(tree, list.skip(1), db_name, depth, more);
        assert forall|i: int| 0 <= i < list.len() implies tree.within(
            #[trigger] list[i],
            db_name,
            more,
        ) by {
            if i > 0 {
                assert(list[i] == list.skip(1)[i - 1]);
            }
        }
    }
}

proof fn lemma_files_in_concat(
    tree: Tree,
    one: Seq<Spot>,
    two: Seq<Spot>,
    db_name: Seq<char>,
    depth: nat,
)
    ensures
        tree.files_in(one + two, db_name, depth) == tree.files_in(one, db_name, depth)
            + tree.files_in(two, db_name, depth),
        tree.replies_in(one + two, db_name, depth) == tree.replies_in(one, db_name, depth)
            + tree.replies_in(two, db_name, depth),
    decreases one.len(),
{
    if one.len() == 0 {
        assert(one + two == two);
        assert(tree.files_in(one + two, db_name, depth) == tree.files_in(one, db_name, depth)
            + tree.files_in(two, db_name, depth));
    } else {
        assert((one + two).skip(1) == one.skip(1) + two);
        lemma_files_in_concat(tree, one.skip(1), two, db_name, depth);
        assert(tree.files_in(one + two, db_name, depth) == tree.files_in(one, db_name, depth)
            + tree.files_in(two, db_name, depth));
    }
}

/// Going on to the next place leaves what is due as it is.
proof fn lemma_onward(tree: Tree, state: WalkState, depth: nat)
    requires
        forall|i: int|
            0 <= i < state.stack.len() ==> tree.within(
                #[trigger] state.stack[i],
                state.db_name,
                depth,
            ),
    ensures
        on_course(tree, state.onward(), depth),
        due(tree, state.onward(), depth) == tree.files_in(
            state.stack.reverse(),
            state.db_name,
            depth,
        ),
        left(tree, state.onward(), depth) == tree.replies_in(
            state.stack.reverse(),
            state.db_name,
            depth,
        ),
{
    let list = state.stack.reverse();
    if state.stack.len() > 0 {
        assert(list[0] == state.stack.last());
        assert(list.skip(1) == state.stack.drop_last().reverse());
        assert(due(tree, state.onward(), depth) == tree.files_in(list, state.db_name, depth));
    } else {
        assert(due(tree, state.onward(), depth) == tree.files_in(list, state.db_name, depth));
    }
}

/// A reply out of the tree keeps the walk on course: what it brings was the next
/// thing due.
proof fn lemma_walk_step(tree: Tree, state: WalkState, reply: WalkReply, depth: nat)
    requires
        on_course(tree, state, depth),
        tree.answers(state.stage, reply),
    ensures
        on_course(tree, state.next(reply), depth),
        due(tree, state, depth) == brought(state, reply) + due(tree, state.next(reply), depth),
        left(tree, state, depth) == 1 + left(tree, state.next(reply), depth),
{
    let db_name = state.db_name;
    let rest = tree.files_in(state.stack.reverse(), db_name, depth);
    let after = state.next(reply);
    match state.stage {
        WalkWait::List(spot) => {
            let list = tree.children(spot, db_name);
            let pushed = WalkState { stack: state.stack + list.reverse(), ..state };
            assert(pushed.stack.reverse() == list + state.stack.reverse());
            lemma_files_in_concat(tree, list, state.stack.reverse(), db_name, depth);
            assert forall|i: int| 0 <= i < pushed.stack.len() implies tree.within(
                #[trigger] pushed.stack[i],
                db_name,
                depth,
            ) by {
                if i >= state.stack.len() {
                    let j = list.len() - 1 - (i - state.stack.len());
                    assert(pushed.stack[i] == list[j]);
                }
            }
            lemma_onward(tree, pushed, depth);
        },
        WalkWait::Stat(spot) => {},
        WalkWait::Probe(spot) => {
            let list = tree.children(spot, db_name);
            if (tree.names)(spot.path).len() == 0 {
                lemma_no_children(spot, (tree.names)(spot.path), db_name);
            } else {
                lemma_depth_of_list(tree, list, db_name, (depth - 1) as nat, depth);
            }
        },
        WalkWait::Warn(_) => {
            lemma_onward(tree, state, depth);
        },
        WalkWait::StatAgain(_, _) => {
            lemma_onward(tree, state, depth);
        },
        _ => {},
    }
    assert(due(tree, state, depth) == brought(state, reply) + due(tree, after, depth));
}

proof fn lemma_no_children(root: Spot, names: Seq<Seq<u8>>, db_name: Seq<char>)
    requires
        names.len() == 0,
    ensures
        children(root, names, db_name).len() == 0,
{
    lemma_names_are_ordered();
    names.lemma_sort_by_ensures(|a: Seq<u8>, b: Seq<u8>| bytes_le(a, b));
    assert(sorted_names(names).len() == names.len()) by {
        broadcast use vstd::seq_lib::group_to_multiset_ensures;

        assert(names.to_multiset().len() == sorted_names(names).to_multiset().len());
    }
}

proof fn lemma_walk_so_far(
    tree: Tree,
    start: WalkState,
    replies: Seq<WalkReply>,
    depth: nat,
)
    requires
        on_course(tree, start, depth),
        forall|i: int|
            0 <= i < replies.len() ==> tree.answers(
                walk_after(start, replies.take(i)).stage,
                #[trigger] replies[i],
            ),
    ensures
        on_course(tree, walk_after(start, replies), depth),
        due(tree, start, depth) == archived(start, replies) + due(
            tree,
            walk_after(start, replies),
            depth,
        ),
        left(tree, start, depth) == replies.len() + left(tree, walk_after(start, replies), depth),
    decreases replies.len(),
{
    if replies.len() == 0 {
        assert(due(tree, start, depth) == archived(start, replies) + due(tree, start, depth));
    } else {
        let before = replies.drop_last();
        assert forall|i: int| 0 <= i < before.len() implies tree.answers(
            walk_after(start, before.take(i)).stage,
            #[trigger] before[i],
        ) by {
            assert(before.take(i) == replies.take(i));
            assert(before[i] == replies[i]);
        }
        lemma_walk_so_far(tree, start, before, depth);
        assert(replies.take(replies.len() - 1) == before);
        let state = walk_after(start, before);
        lemma_walk_step(tree, state, replies.last(), depth);
        assert(due(tree, start, depth) == archived(start, replies) + due(
            tree,
            walk_after(start, replies),
            depth,
        ));
    }
}

/// Of a source directory that nobody changes, a walk that has come to its end
/// has succeeded, and has archived every regular file exactly once, depth first
/// and ascending by name, with its size, permissions and time.
pub proof fn law_walk_archives_the_tree(
    tree: Tree,
    source: Seq<u8>,
    db_name: Seq<char>,
    depth: nat,
    replies: Seq<WalkReply>,
)
    requires
        ({
            let list = tree.children(Spot { arc: Seq::empty(), path: source }, db_name);
            forall|i: int| 0 <= i < list.len() ==> tree.within(#[trigger] list[i], db_name, depth)
        }),
        forall|i: int|
            0 <= i < replies.len() ==> tree.answers(
                walk_after(walk_start(source, db_name), replies.take(i)).stage,
                #[trigger] replies[i],
            ),
        walk_after(walk_start(source, db_name), replies).stage is Done,
    ensures
        walk_after(walk_start(source, db_name), replies).stage == WalkWait::Done(Ok(())),
        archived(walk_start(source, db_name), replies) == tree.files_in(
            tree.children(Spot { arc: Seq::empty(), path: source }, db_name),
            db_name,
            depth,
        ),
{
    let start = walk_start(source, db_name);
    lemma_walk_so_far(tree, start, replies, depth);
    assert(start.stack.reverse() == Seq::<Spot>::empty());
    let end = walk_after(start, replies);
    assert(end.stage->Done_0->Ok_0 == ());
    assert(end.stack.reverse() == Seq::<Spot>::empty());
    assert(due(tree, end, depth) == Seq::<ArchiveEntry>::empty());
    assert(due(tree, start, depth) == tree.files_in(
        tree.children(Spot { arc: Seq::empty(), path: source }, db_name),
        db_name,
        depth,
    ));
    assert(archived(start, replies) + Seq::<ArchiveEntry>::empty() == archived(start, replies));
}

/// The walk through a source directory that nobody changes comes to its end: it
/// takes a number of replies that the tree fixes, and no more.
pub proof fn law_walk_ends(
    tree: Tree,
    source: Seq<u8>,
    db_name: Seq<char>,
    depth: nat,
    replies: Seq<WalkReply>,
)
    requires
        ({
            let list = tree.children(Spot { arc: Seq::empty(), path: source }, db_name);
            forall|i: int| 0 <= i < list.len() ==> tree.within(#[trigger] list[i], db_name, depth)
        }),
        forall|i: int|
            0 <= i < replies.len() ==> tree.answers(
                walk_after(walk_start(source, db_name), replies.take(i)).stage,
                #[trigger] replies[i],
            ),
    ensures
        ({
            let list = tree.children(Spot { arc: Seq::empty(), path: source }, db_name);
            let all = 1 + tree.replies_in(list, db_name, depth);
            &&& replies.len() <= all
            &&& walk_after(walk_start(source, db_name), replies).stage is Done <==> replies.len()
                == all
        }),
{
    let start = walk_start(source, db_name);
    lemma_walk_so_far(tree, start, replies, depth);
    assert(start.stack.reverse() == Seq::<Spot>::empty());
    let end = walk_after(start, replies);
    match end.stage {
        WalkWait::Done(_) => {
            assert(end.stack.reverse() == Seq::<Spot>::empty());
        },
        WalkWait::Stat(spot) => {
            assert(tree.replies_at(spot, db_name, depth) >= 2);
        },
        WalkWait::Probe(spot) => {
            assert(tree.replies_at(spot, db_name, depth) >= 2);
        },
        _ => {},
    }
    assert(end.db_name == db_name) by {
        lemma_db_name_stays(start, replies);
    }
}

proof fn lemma_db_name_stays(start: WalkState, replies: Seq<WalkReply>)
    ensures
        walk_after(start, replies).db_name == start.db_name,
    decreases replies.len(),
{
    if replies.len() > 0 {
        lemma_db_name_stays(start, replies.drop_last());
    }
}

/// Whatever is replied, a walk that succeeded found every file that it archived
/// unchanged afterwards.
pub proof fn law_success_means_unchanged(start: WalkState, replies: Seq<WalkReply>, i: int)
    requires
        0 <= i < replies.len(),
        walk_after(start, replies.take(i)).stage is StatAgain,
        replies[i] is Meta,
        walk_after(start, replies).stage == WalkWait::Done(Ok(())),
    ensures
        replies[i] matches WalkReply::Meta(Ok(after)) && !changed(
            walk_after(start, replies.take(i)).stage->StatAgain_1,
            after,
        ),
    decreases replies.len() - i,
{
    assert(replies.take(i + 1).drop_last() == replies.take(i));
    if walk_after(start, replies.take(i + 1)).stage == WalkWait::Done(
        Err(walk_after(start, replies.take(i + 1)).stage->Done_0->Err_0),
    ) {
        lemma_failed_stays(start, replies, i + 1);
    }
}

/// A walk that has failed stays so.
proof fn lemma_failed_stays(start: WalkState, replies: Seq<WalkReply>, i: int)
    requires
        0 <= i <= replies.len(),
        walk_after(start, replies.take(i)).stage is Done,
    ensures
        walk_after(start, replies) == walk_after(start, replies.take(i)),
    decreases replies.len() - i,
{
    if i == replies.len() {
        assert(replies.take(i) == replies);
    } else {
        assert(replies.take(i + 1).drop_last() == replies.take(i));
        lemma_failed_stays(start, replies, i + 1);
    }
}

/// Of the source directory itself, every entry is visited but the database and
/// its sidecars, which never are.
pub proof fn law_only_the_database_is_left_out(
    source: Seq<u8>,
    names: Seq<Seq<u8>>,
    db_name: Seq<char>,
    name: Seq<u8>,
)
    requires
        names.contains(name),
    ensures
        ({
            let root = Spot { arc: Seq::empty(), path: source };
            children(root, names, db_name).contains(child_spot(root, name)) <==> {
                &&& shown(name) != db_name
                &&& !(db_name + "-"@).is_prefix_of(shown(name))
            }
        }),
{
    let root = Spot { arc: Seq::empty(), path: source };
    lemma_names_are_ordered();
    let le = |a: Seq<u8>, b: Seq<u8>| bytes_le(a, b);
    names.lemma_sort_by_ensures(le);
    assert(sorted_names(names).contains(name)) by {
        broadcast use vstd::seq_lib::group_to_multiset_ensures;

        assert(names.to_multiset().count(name) > 0);
    }
    lemma_kept(root, sorted_names(names), db_name, name);
}

proof fn lemma_kept(root: Spot, names: Seq<Seq<u8>>, db_name: Seq<char>, name: Seq<u8>)
    requires
        root.arc.len() == 0,
    ensures
        names.contains(name) && !is_database(root.arc, shown(name), db_name)
            ==> kept_children(root, names, db_name).contains(child_spot(root, name)),
        is_database(root.arc, shown(name), db_name) ==> !kept_children(
            root,
            names,
            db_name,
        ).contains(child_spot(root, name)),
    decreases names.len(),
{
    if names.len() > 0 {
        let rest = kept_children(root, names.skip(1), db_name);
        let whole = kept_children(root, names, db_name);
        lemma_kept(root, names.skip(1), db_name, name);
        let spot = child_spot(root, name);
        if names.contains(name) && names[0] != name {
            let k = choose|k: int| 0 <= k < names.len() && names[k] == name;
            assert(names.skip(1)[k - 1] == name);
        }
        if rest.contains(spot) {
            let k = choose|k: int| 0 <= k < rest.len() && rest[k] == spot;
            assert(whole.contains(spot)) by {
                if whole.len() > rest.len() {
                    assert(whole[k + 1] == spot);
                } else {
                    assert(whole[k] == spot);
                }
            }
        }
        if names[0] == name && !is_database(root.arc, shown(name), db_name) {
            assert(whole[0] == spot);
        }
        if is_database(root.arc, shown(name), db_name) && whole.contains(spot) {
            let k = choose|k: int| 0 <= k < whole.len() && whole[k] == spot;
            if whole.len() > rest.len() {
                if k == 0 {
                    assert(child_spot(root, names[0]).arc == shown(names[0]));
                } else {
                    assert(rest[k - 1] == spot);
                }
            } else {
                assert(rest[k] == spot);
            }
            assert(false);
        }
    }
}

proof fn lemma_kept_below_root(root: Spot, list: Seq<Seq<u8>>, db_name: Seq<char>)
    requires
        root.arc.len() > 0,
    ensures
        kept_children(root, list, db_name) == list.map_values(|name: Seq<u8>| child_spot(root, name)),
    decreases list.len(),
{
    let spot = |name: Seq<u8>| child_spot(root, name);
    if list.len() > 0 {
        lemma_kept_below_root(root, list.skip(1), db_name);
        assert(list.map_values(spot) == seq![spot(list[0])] + list.skip(1).map_values(spot));
    } else {
        assert(kept_children(root, list, db_name) == list.map_values(spot));
    }
}

/// Below the source directory nothing at all is left out: the places visited in a
/// directory are its entries, one for one, in the order of their names, each under
/// the directory's own name in the archive, a slash and its name.
pub proof fn law_below_the_root_every_entry_is_visited(
    root: Spot,
    list: Seq<Seq<u8>>,
    db_name: Seq<char>,
    name: Seq<u8>,
)
    requires
        root.arc.len() > 0,
    ensures
        children(root, list, db_name).len() == list.len(),
        forall|i: int|
            0 <= i < list.len() ==> #[trigger] children(root, list, db_name)[i] == (Spot {
                arc: root.arc + seq!['/'] + shown(sorted_names(list)[i]),
                path: child(root.path, sorted_names(list)[i]),
            }),
        list.contains(name) ==> children(root, list, db_name).contains(
            Spot { arc: root.arc + seq!['/'] + shown(name), path: child(root.path, name) },
        ),
{
    reveal_strlit("/");
    assert("/"@ == seq!['/']);
    let sorted = sorted_names(list);
    law_sorting_only_rearranges(list);
    lemma_kept_below_root(root, sorted, db_name);
    if list.contains(name) {
        assert(sorted.contains(name));
        let k = choose|k: int| 0 <= k < sorted.len() && sorted[k] == name;
        assert(children(root, list, db_name)[k] == child_spot(root, name));
    }
}

proof fn lemma_kept_at_root(root: Spot, list: Seq<Seq<u8>>, db_name: Seq<char>)
    requires
        root.arc.len() == 0,
    ensures
        forall|i: int|
            0 <= i < kept_children(root, list, db_name).len() ==> exists|k: int|
                0 <= k < list.len() && (#[trigger] kept_children(root, list, db_name)[i])
                    == child_spot(root, #[trigger] list[k]) && !is_database(
                    root.arc,
                    shown(list[k]),
                    db_name,
                ),
    decreases list.len(),
{
    if list.len() > 0 {
        let rest = list.skip(1);
        let tail = kept_children(root, rest, db_name);
        let whole = kept_children(root, list, db_name);
        lemma_kept_at_root(root, rest, db_name);
        assert forall|i: int| 0 <= i < whole.len() implies exists|k: int|
            0 <= k < list.len() && (#[trigger] whole[i]) == child_spot(root, #[trigger] list[k])
                && !is_database(root.arc, shown(list[k]), db_name) by {
            let j = if whole.len() > tail.len() {
                i - 1
            } else {
                i
            };
            if j >= 0 {
                assert(whole[i] == tail[j]);
                let k = choose|k: int|
                    0 <= k < rest.len() && tail[j] == child_spot(root, #[trigger] rest[k])
                        && !is_database(root.arc, shown(rest[k]), db_name);
                assert(list[k + 1] == rest[k]);
            } else {
                assert(whole[i] == child_spot(root, list[0]));
            }
        }
    }
}

/// In the source directory itself, every entry is visited under its own name but
/// those called as the database, or as the database and a hyphen; and nothing is
/// visited that the directory does not list.
pub proof fn law_at_the_root_only_the_database_is_skipped(
    source: Seq<u8>,
    list: Seq<Seq<u8>>,
    db_name: Seq<char>,
    name: Seq<u8>,
)
    ensures
        ({
            let root = Spot { arc: Seq::empty(), path: source };
            let text = shown(name);
            let places = children(root, list, db_name);
            &&& list.contains(name) && text != db_name && !(text.len() > db_name.len()
                && text.take(db_name.len() as int) == db_name && text[db_name.len() as int] == '-')
                ==> places.contains(Spot { arc: text, path: child(source, name) })
            &&& forall|i: int|
                0 <= i < places.len() ==> exists|k: int|
                    0 <= k < list.len() && (#[trigger] places[i]) == (Spot {
                        arc: shown(#[trigger] list[k]),
                        path: child(source, list[k]),
                    }) && shown(list[k]) != db_name
        }),
{
    reveal_strlit("-");
    assert("-"@ == seq!['-']);
    let root = Spot { arc: Seq::empty(), path: source };
    let text = shown(name);
    let sorted = sorted_names(list);
    let places = children(root, list, db_name);
    law_sorting_only_rearranges(list);
    lemma_kept_at_root(root, sorted, db_name);
    if list.contains(name) {
        lemma_kept(root, sorted, db_name, name);
        assert(sorted.contains(name));
        let sidecar = db_name + "-"@;
        if sidecar.is_prefix_of(text) {
            assert(text.subrange(0, sidecar.len() as int)[db_name.len() as int] == '-');
            assert(text.take(db_name.len() as int) == db_name) by {
                assert forall|k: int| 0 <= k < db_name.len() implies text[k] == db_name[k] by {
                    assert(text.subrange(0, sidecar.len() as int)[k] == sidecar[k]);
                }
            }
        }
    }
    assert forall|i: int| 0 <= i < places.len() implies exists|k: int|
        0 <= k < list.len() && (#[trigger] places[i]) == (Spot {
            arc: shown(#[trigger] list[k]),
            path: child(source, list[k]),
        }) && shown(list[k]) != db_name by {
        let k = choose|k: int|
            0 <= k < sorted.len() && places[i] == child_spot(root, #[trigger] sorted[k])
                && !is_database(root.arc, shown(sorted[k]), db_name);
        assert(sorted.contains(sorted[k]));
        assert(list.contains(sorted[k]));
        let j = choose|j: int| 0 <= j < list.len() && list[j] == sorted[k];
        assert(places[i] == Spot { arc: shown(list[j]), path: child(source, list[j]) });
    }
}

/// A file counts as changed exactly if its length or its modification time is
/// another; its time in the archive is its modification time in whole seconds, and
/// the epoch for what is older.
pub proof fn law_changes_and_times_are_told_exactly(
    before: FileMeta,
    after: FileMeta,
    time: FileTime,
    path: Seq<u8>,
)
    ensures
        before.modified is Ok && after.modified is Ok ==> (changed(before, after) <==> before.len
            != after.len || before.modified->Ok_0.seconds != after.modified->Ok_0.seconds
            || before.modified->Ok_0.nanos != after.modified->Ok_0.nanos),
        before.modified is Err && after.modified is Err ==> (changed(before, after) <==> before.len
            != after.len),
        before.modified is Ok != after.modified is Ok ==> changed(before, after),
        before.modified == Ok::<FileTime, Failure>(time) && time.seconds >= 0 ==> mtime(before, path)
            == Ok::<u64, Seq<Seq<char>>>(time.seconds as u64),
        before.modified == Ok::<FileTime, Failure>(time) && time.seconds < 0 ==> mtime(before, path)
            == Ok::<u64, Seq<Seq<char>>>(0),
        before.modified is Err ==> mtime(before, path) is Err,
{
}

/// Whether `chain` names, from one directory to the next, a regular file of the
/// tree below `dir`.
pub open spec fn leads_to_file(tree: Tree, dir: Seq<u8>, chain: Seq<Seq<u8>>) -> bool {
    &&& chain.len() > 0
    &&& forall|k: int|
        0 <= k < chain.len() ==> (tree.names)(below(dir, chain.take(k))).contains(
            #[trigger] chain[k],
        )
    &&& forall|k: int|
        1 <= k < chain.len() ==> (tree.meta)(#[trigger] below(dir, chain.take(k))).kind is Directory
    &&& (tree.meta)(below(dir, chain)).kind is Regular
}

proof fn lemma_below_step(dir: Seq<u8>, chain: Seq<Seq<u8>>)
    requires
        chain.len() > 0,
    ensures
        below(dir, chain) == below(child(dir, chain[0]), chain.skip(1)),
    decreases chain.len(),
{
    if chain.len() == 1 {
        assert(chain.drop_last() == Seq::<Seq<u8>>::empty());
        assert(chain.skip(1) == Seq::<Seq<u8>>::empty());
        assert(below(dir, chain.drop_last()) == dir);
    } else {
        lemma_below_step(dir, chain.drop_last());
        assert(chain.drop_last().skip(1) == chain.skip(1).drop_last());
        assert(chain.drop_last()[0] == chain[0]);
        assert(chain.skip(1).last() == chain.last());
    }
}

/// What remains of a chain once its first name has been followed.
proof fn lemma_chain_goes_on(tree: Tree, dir: Seq<u8>, chain: Seq<Seq<u8>>)
    requires
        leads_to_file(tree, dir, chain),
        chain.len() > 1,
    ensures
        leads_to_file(tree, child(dir, chain[0]), chain.skip(1)),
        (tree.meta)(child(dir, chain[0])).kind is Directory,
        (tree.names)(dir).contains(chain[0]),
{
    let next = child(dir, chain[0]);
    let rest = chain.skip(1);
    lemma_below_step(dir, chain);
    assert forall|k: int| 0 <= k < rest.len() implies below(next, #[trigger] rest.take(k)) == below(
        dir,
        chain.take(k + 1),
    ) by {
        lemma_below_step(dir, chain.take(k + 1));
        assert(chain.take(k + 1).skip(1) == rest.take(k));
        assert(chain.take(k + 1)[0] == chain[0]);
    }
    assert forall|k: int| 0 <= k < rest.len() implies (tree.names)(
        below(next, rest.take(k)),
    ).contains(#[trigger] rest[k]) by {
        assert(rest.take(k) == rest.take(k));
        assert(rest[k] == chain[k + 1]);
        assert((tree.names)(below(dir, chain.take(k + 1))).contains(chain[k + 1]));
    }
    assert forall|k: int| 1 <= k < rest.len() implies (tree.meta)(
        #[trigger] below(next, rest.take(k)),
    ).kind is Directory by {
        assert(below(next, rest.take(k)) == below(dir, chain.take(k + 1)));
        assert((tree.meta)(below(dir, chain.take(k + 1))).kind is Directory);
    }
    assert(below(dir, chain.take(1)) == next) by {
        lemma_below_step(dir, chain.take(1));
        assert(chain.take(1).skip(1) == Seq::<Seq<u8>>::empty());
    }
    assert(chain.take(0) == Seq::<Seq<u8>>::empty());
    assert((tree.names)(below(dir, chain.take(0))).contains(chain[0]));
    assert((tree.meta)(below(dir, chain.take(1))).kind is Directory);
}

proof fn lemma_files_in_contains(
    tree: Tree,
    list: Seq<Spot>,
    db_name: Seq<char>,
    depth: nat,
    spot: Spot,
    entry: ArchiveEntry,
)
    requires
        list.contains(spot),
        tree.files_at(spot, db_name, depth).contains(entry),
    ensures
        tree.files_in(list, db_name, depth).contains(entry),
    decreases list.len(),
{
    let first = tree.files_at(list[0], db_name, depth);
    let rest = tree.files_in(list.skip(1), db_name, depth);
    if list[0] == spot {
        let k = choose|k: int| 0 <= k < first.len() && first[k] == entry;
        assert((first + rest)[k] == entry);
    } else {
        let j = choose|j: int| 0 <= j < list.len() && list[j] == spot;
        assert(list.skip(1)[j - 1] == spot);
        lemma_files_in_contains(tree, list.skip(1), db_name, depth, spot, entry);
        let k = choose|k: int| 0 <= k < rest.len() && rest[k] == entry;
        assert((first + rest)[first.len() + k] == entry);
    }
}

/// The entry of a regular file, in plain terms.
pub open spec fn plain_entry(arc: Seq<char>, path: Seq<u8>, meta: FileMeta) -> ArchiveEntry {
    let seconds = meta.modified->Ok_0.seconds;
    ArchiveEntry {
        arc,
        path,
        header: EntryHeader {
            size: meta.len,
            mode: (meta.mode % 4096) as u32,
            mtime: if seconds < 0 {
                0
            } else {
                seconds as u64
            },
        },
    }
}

proof fn lemma_file_found(
    tree: Tree,
    spot: Spot,
    db_name: Seq<char>,
    depth: nat,
    chain: Seq<Seq<u8>>,
)
    requires
        spot.arc.len() > 0,
        (tree.meta)(spot.path).kind is Directory,
        tree.within(spot, db_name, depth),
        leads_to_file(tree, spot.path, chain),
    ensures
        tree.files_at(spot, db_name, depth).contains(
            plain_entry(
                spot.arc + seq!['/'] + joined(
                    chain.map_values(|name: Seq<u8>| shown(name)),
                    seq!['/'],
                ),
                below(spot.path, chain),
                (tree.meta)(below(spot.path, chain)),
            ),
        ),
    decreases chain.len(),
{
    let show = |name: Seq<u8>| shown(name);
    let list = tree.children(spot, db_name);
    let name = chain[0];
    let next = Spot { arc: spot.arc + seq!['/'] + shown(name), path: child(spot.path, name) };
    let fewer = (depth - 1) as nat;
    let meta = (tree.meta)(below(spot.path, chain));
    let arc = spot.arc + seq!['/'] + joined(chain.map_values(show), seq!['/']);
    let entry = plain_entry(arc, below(spot.path, chain), meta);
    assert(chain.take(0) == Seq::<Seq<u8>>::empty());
    assert((tree.names)(below(spot.path, chain.take(0))).contains(chain[0]));
    law_below_the_root_every_entry_is_visited(spot, (tree.names)(spot.path), db_name, name);
    assert(list.contains(next));
    let i = choose|i: int| 0 <= i < list.len() && list[i] == next;
    assert(tree.within(list[i], db_name, fewer));
    lemma_below_step(spot.path, chain);
    if chain.len() == 1 {
        assert(chain.skip(1) == Seq::<Seq<u8>>::empty());
        assert(below(next.path, chain.skip(1)) == next.path);
        assert(chain.map_values(show) == seq![shown(name)]);
        assert(next.arc == arc);
        assert(tree.files_at(next, db_name, fewer)[0] == entry);
        assert(tree.files_at(next, db_name, fewer).contains(entry));
    } else {
        lemma_chain_goes_on(tree, spot.path, chain);
        lemma_file_found(tree, next, db_name, fewer, chain.skip(1));
        let texts = chain.map_values(show);
        law_joining_concatenates(seq![texts[0]], texts.skip(1), texts[0], seq!['/']);
        assert(seq![texts[0]] + texts.skip(1) == texts);
        assert(texts.skip(1) == chain.skip(1).map_values(show));
        assert(next.arc + seq!['/'] + joined(texts.skip(1), seq!['/']) == arc);
        assert(tree.files_at(next, db_name, fewer).contains(entry));
    }
    lemma_files_in_contains(tree, list, db_name, fewer, next, entry);
}

/// Of a source directory that nobody changes, a walk that has come to its end has
/// archived every regular file, however deep it lies and whatever it is called,
/// the database alone excepted: under its path from the source, the names parted
/// by slashes, with its size, its permissions and its time.
pub proof fn law_every_regular_file_is_archived(
    tree: Tree,
    source: Seq<u8>,
    db_name: Seq<char>,
    depth: nat,
    replies: Seq<WalkReply>,
    chain: Seq<Seq<u8>>,
)
    requires
        ({
            let list = tree.children(Spot { arc: Seq::empty(), path: source }, db_name);
            forall|i: int| 0 <= i < list.len() ==> tree.within(#[trigger] list[i], db_name, depth)
        }),
        forall|i: int|
            0 <= i < replies.len() ==> tree.answers(
                walk_after(walk_start(source, db_name), replies.take(i)).stage,
                #[trigger] replies[i],
            ),
        walk_after(walk_start(source, db_name), replies).stage is Done,
        leads_to_file(tree, source, chain),
        ({
            let first = shown(chain[0]);
            let n = db_name.len() as int;
            &&& first.len() > 0
            &&& first != db_name
            &&& !(first.len() > n && first.take(n) == db_name && first[n] == '-')
        }),
    ensures
        archived(walk_start(source, db_name), replies).contains(
            plain_entry(
                joined(chain.map_values(|name: Seq<u8>| shown(name)), seq!['/']),
                below(source, chain),
                (tree.meta)(below(source, chain)),
            ),
        ),
{
    let show = |name: Seq<u8>| shown(name);
    let root = Spot { arc: Seq::empty(), path: source };
    let list = tree.children(root, db_name);
    let name = chain[0];
    let first = Spot { arc: shown(name), path: child(source, name) };
    let texts = chain.map_values(show);
    let meta = (tree.meta)(below(source, chain));
    let entry = plain_entry(joined(texts, seq!['/']), below(source, chain), meta);
    law_walk_archives_the_tree(tree, source, db_name, depth, replies);
    assert(chain.take(0) == Seq::<Seq<u8>>::empty());
    assert((tree.names)(below(source, chain.take(0))).contains(chain[0]));
    law_at_the_root_only_the_database_is_skipped(source, (tree.names)(source), db_name, name);
    assert(list.contains(first));
    let i = choose|i: int| 0 <= i < list.len() && list[i] == first;
    assert(tree.within(list[i], db_name, depth));
    lemma_below_step(source, chain);
    if chain.len() == 1 {
        assert(chain.skip(1) == Seq::<Seq<u8>>::empty());
        assert(below(first.path, chain.skip(1)) == first.path);
        assert(texts == seq![shown(name)]);
        assert(tree.files_at(first, db_name, depth)[0] == entry);
    } else {
        lemma_chain_goes_on(tree, source, chain);
        lemma_file_found(tree, first, db_name, depth, chain.skip(1));
        law_joining_concatenates(seq![texts[0]], texts.skip(1), texts[0], seq!['/']);
        assert(seq![texts[0]] + texts.skip(1) == texts);
        assert(texts.skip(1) == chain.skip(1).map_values(show));
    }
    assert(tree.files_at(first, db_name, depth).contains(entry));
    lemma_files_in_contains(tree, list, db_name, depth, first, entry);
}

/// A walk goes on as long as nothing fails: a regular file is opened, looked at,
/// appended under its own length, permissions and time, and looked at once more; a
/// directory is probed, and listed unless it is empty; links, special files and
/// empty directories are told and passed over.
pub proof fn law_walks_go_on(state: WalkState, meta: FileMeta, reply: WalkReply)
    ensures
        state.stage matches WalkWait::Stat(spot) ==> {
            let then = state.next(WalkReply::Meta(Ok(meta))).stage;
            match meta.kind {
                FileKind::Regular => then == WalkWait::Open(spot, meta.len),
                FileKind::Directory => then == WalkWait::Probe(spot),
                FileKind::Symlink => then == WalkWait::Warn(
                    "warning: skipping symlink "@ + shown(spot.path),
                ),
                FileKind::Special => then == WalkWait::Warn(
                    "warning: skipping special file "@ + shown(spot.path),
                ),
            }
        },
        state.stage matches WalkWait::Probe(spot) ==> {
            &&& state.next(WalkReply::Empty(Ok(false))).stage == WalkWait::List(spot)
            &&& state.next(WalkReply::Empty(Ok(true))).stage == WalkWait::Warn(
                "warning: skipping empty directory "@ + shown(spot.path),
            )
        },
        state.stage matches WalkWait::Open(spot, len) ==> state.next(
            WalkReply::Opened(Ok(())),
        ).stage == WalkWait::StatOpened(spot, len),
        state.stage matches WalkWait::StatOpened(spot, len) ==> {
            let then = state.next(WalkReply::Meta(Ok(meta))).stage;
            &&& meta.len == len && mtime(meta, spot.path) is Ok ==> {
                &&& then is Append && then->Append_0 == spot && then->Append_1 == meta
                &&& then->Append_2.size == meta.len
                &&& then->Append_2.mode == meta.mode % 0o10000
                &&& mtime(meta, spot.path)->Ok_0 == then->Append_2.mtime
            }
            &&& meta.len != len || mtime(meta, spot.path) is Err ==> (then matches WalkWait::Done(
                Err(_),
            ))
        },
        state.stage matches WalkWait::Append(spot, opened, _) ==> state.next(
            WalkReply::Appended(Ok(())),
        ).stage == WalkWait::StatAgain(spot, opened),
        state.stage matches WalkWait::StatAgain(_, opened) ==> {
            let then = state.next(WalkReply::Meta(Ok(meta)));
            &&& changed(opened, meta) ==> (then.stage matches WalkWait::Done(Err(_)))
            &&& !changed(opened, meta) && state.stack.len() > 0 ==> then.stage == WalkWait::Stat(
                state.stack.last(),
            ) && then.stack == state.stack.drop_last()
            &&& !changed(opened, meta) && state.stack.len() == 0 ==> (then.stage matches
                WalkWait::Done(Ok(_)))
        },
        state.stage is Warn ==> {
            let then = state.next(WalkReply::Warned);
            &&& state.stack.len() > 0 ==> then.stage == WalkWait::Stat(state.stack.last())
                && then.stack == state.stack.drop_last()
            &&& state.stack.len() == 0 ==> (then.stage matches WalkWait::Done(Ok(_)))
        },
        state.stage is Done ==> state.next(reply) == state,
{
}

/// A step of a walk that fails fails the walk, and the cause is told whole.
pub proof fn law_failed_walks_tell_why(state: WalkState, cause: Failure)
    ensures
        state.stage is Stat || state.stage is StatOpened || state.stage is StatAgain ==> {
            let then = state.next(WalkReply::Meta(Err(cause))).stage;
            then is Done && then->Done_0 is Err && tells(then->Done_0->Err_0, cause@)
        },
        state.stage is Open ==> {
            let then = state.next(WalkReply::Opened(Err(cause))).stage;
            then is Done && then->Done_0 is Err && tells(then->Done_0->Err_0, cause@)
        },
        state.stage is Append ==> {
            let then = state.next(WalkReply::Appended(Err(cause))).stage;
            then is Done && then->Done_0 is Err && tells(then->Done_0->Err_0, cause@)
        },
        state.stage is List ==> {
            let then = state.next(WalkReply::Listed(DirEntries::Unreadable(cause))).stage;
            let broken = state.next(WalkReply::Listed(DirEntries::BrokenEntry(cause))).stage;
            &&& then is Done && then->Done_0 is Err && tells(then->Done_0->Err_0, cause@)
            &&& broken is Done && broken->Done_0 is Err && broken->Done_0->Err_0 == cause@
        },
        state.stage is Probe ==> {
            let then = state.next(WalkReply::Empty(Err(cause))).stage;
            then is Done && then->Done_0 is Err && then->Done_0->Err_0 == cause@
        },
{
}

/// A walk begins with the listing of the source itself, as the root of the archive,
/// and with nothing else to visit; places are seen one by one.
pub proof fn law_walks_begin_at_the_source(
    source: Seq<u8>,
    db_name: Seq<char>,
    list: Seq<Place>,
    i: int,
)
    ensures
        ({
            let start = walk_start(source, db_name);
            &&& start.db_name == db_name
            &&& start.stack.len() == 0
            &&& start.stage is List
            &&& start.stage->List_0.path == source
            &&& start.stage->List_0.arc.len() == 0
        }),
        spots(list).len() == list.len(),
        0 <= i < list.len() ==> spots(list)[i].arc == list[i].arc_name@ && spots(list)[i].path
            == list[i].path@,
{
}

} // verus!
