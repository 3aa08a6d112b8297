//! Where a directory will lie once it is created, told without creating it: the
//! names along its path are followed as far as they exist, and those that are
//! missing are put behind.

use vstd::prelude::*;

use crate::failure::Failure;
use crate::path::{
    byte_strings, child, is_absolute, is_parent_name, lemma_child, names, names_of, parent_of,
    tidy_end, FilePath, SEPARATOR,
};
use crate::trace::after;

verus! {

/// What became of resolving a path.
#[derive(Debug)]
pub enum Resolution {
    /// It exists, and this is its resolved path.
    Found(FilePath),
    /// It does not exist.
    Missing,
    /// It could not be told.
    Failed(Failure),
}

/// Where the foresight stands.
#[derive(Debug)]
pub enum ForeseeStage {
    /// Resolve the directory that the path begins in.
    Begin,
    /// Resolve the next name.
    Follow,
    /// The path is foreseen, or cannot be.
    Done(Result<FilePath, Failure>),
}

/// Where the foresight stands, in mathematical terms.
pub ghost enum ForeseeWait {
    Begin,
    Follow,
    Done(Result<Seq<u8>, Seq<Seq<char>>>),
}

impl View for ForeseeStage {
    type V = ForeseeWait;

    open spec fn view(&self) -> ForeseeWait {
        match *self {
            ForeseeStage::Begin => ForeseeWait::Begin,
            ForeseeStage::Follow => ForeseeWait::Follow,
            ForeseeStage::Done(Ok(path)) => ForeseeWait::Done(Ok(path@)),
            ForeseeStage::Done(Err(failure)) => ForeseeWait::Done(Err(failure@)),
        }
    }
}

/// The following of one path.
#[derive(Debug)]
pub struct Foresight {
    /// What has been resolved so far.
    pub here: FilePath,
    /// The names that are missing behind it.
    pub missing: Vec<Vec<u8>>,
    /// The names that are still to be followed.
    pub rest: Vec<Vec<u8>>,
    pub stage: ForeseeStage,
}

/// The following of one path, in mathematical terms.
pub ghost struct ForesightState {
    pub here: Seq<u8>,
    pub missing: Seq<Seq<u8>>,
    pub rest: Seq<Seq<u8>>,
    pub stage: ForeseeWait,
}

impl View for Foresight {
    type V = ForesightState;

    open spec fn view(&self) -> ForesightState {
        ForesightState {
            here: self.here@,
            missing: byte_strings(self.missing@),
            rest: byte_strings(self.rest@),
            stage: self.stage@,
        }
    }
}

/// The directory that a path begins in: the root, or the current directory.
pub open spec fn beginning(path: Seq<u8>) -> Seq<u8> {
    if is_absolute(path) {
        seq![SEPARATOR]
    } else {
        seq![46u8]
    }
}

/// The path that `list` leads to from `dir`.
pub open spec fn below(dir: Seq<u8>, list: Seq<Seq<u8>>) -> Seq<u8>
    decreases list.len(),
{
    if list.len() == 0 {
        dir
    } else {
        child(below(dir, list.drop_last()), list.last())
    }
}

/// The directory above a resolved one; the root is above itself.
pub open spec fn above(dir: Seq<u8>) -> Seq<u8> {
    match parent_of(dir) {
        Some(parent) => parent,
        None => dir,
    }
}

pub open spec fn foresight_start(path: Seq<u8>) -> ForesightState {
    ForesightState {
        here: beginning(path),
        missing: Seq::empty(),
        rest: names(path),
        stage: ForeseeWait::Begin,
    }
}

impl ForesightState {
    /// The path that is to be resolved.
    pub open spec fn asked(self) -> Seq<u8> {
        if self.stage is Follow && self.rest.len() > 0 {
            child(self.here, self.rest[0])
        } else {
            self.here
        }
    }

    /// On to the next name that has to be looked at. Behind a missing name nothing
    /// is there to be looked at: a name is missing too, and `..` takes the last
    /// missing one back. From a resolved directory, `..` leads to the one above.
    pub open spec fn onward(self) -> ForesightState
        decreases self.rest.len(),
    {
        if self.rest.len() == 0 {
            ForesightState {
                stage: ForeseeWait::Done(Ok(below(self.here, self.missing))),
                ..self
            }
        } else if is_parent_name(self.rest[0]) {
            if self.missing.len() > 0 {
                ForesightState {
                    missing: self.missing.drop_last(),
                    rest: self.rest.skip(1),
                    ..self
                }.onward()
            } else {
                ForesightState {
                    here: above(self.here),
                    rest: self.rest.skip(1),
                    ..self
                }.onward()
            }
        } else if self.missing.len() > 0 {
            ForesightState {
                missing: self.missing.push(self.rest[0]),
                rest: self.rest.skip(1),
                ..self
            }.onward()
        } else {
            ForesightState { stage: ForeseeWait::Follow, ..self }
        }
    }

    /// The foresight after what became of resolving the path that it asked for.
    pub open spec fn next(self, reply: Resolution) -> ForesightState {
        match (self.stage, reply) {
            (ForeseeWait::Begin, Resolution::Found(path)) => ForesightState {
                here: path@,
                ..self
            }.onward(),
            (ForeseeWait::Begin, Resolution::Missing) => self.onward(),
            (ForeseeWait::Follow, Resolution::Found(path)) => if self.rest.len() == 0 {
                self
            } else {
                ForesightState { here: path@, rest: self.rest.skip(1), ..self }.onward()
            },
            (ForeseeWait::Follow, Resolution::Missing) => if self.rest.len() == 0 {
                self
            } else {
                ForesightState {
                    missing: self.missing.push(self.rest[0]),
                    rest: self.rest.skip(1),
                    ..self
                }.onward()
            },
            (ForeseeWait::Done(_), _) => self,
            (_, Resolution::Failed(cause)) => ForesightState {
                stage: ForeseeWait::Done(Err(cause@)),
                ..self
            },
        }
    }
}

/// Begin to foresee where `path` will lie.
pub fn foresee(path: &FilePath) -> (r: Foresight)
    ensures
        r@ == foresight_start(path@),
{
    let mut bytes: Vec<u8> = Vec::new();
    if path.bytes.len() > 0 && path.bytes[0] == SEPARATOR {
        bytes.push(SEPARATOR);
    } else {
        bytes.push(46);
    }
    assert(bytes@ == beginning(path@));
    let missing: Vec<Vec<u8>> = Vec::new();
    assert(byte_strings(missing@) == Seq::<Seq<u8>>::empty());
    Foresight {
        here: FilePath { bytes },
        missing,
        rest: names_of(&path.bytes),
        stage: ForeseeStage::Begin,
    }
}

/// The path that `list` leads to from `dir`.
fn path_below(dir: &FilePath, list: &Vec<Vec<u8>>) -> (r: FilePath)
    ensures
        r@ == below(dir@, byte_strings(list@)),
{
    let ghost all = byte_strings(list@);
    let mut path = dir.clone();
    assert(all.take(0) == Seq::<Seq<u8>>::empty());
    for i in 0..list.len()
        invariant
            all == byte_strings(list@),
            path@ == below(dir@, all.take(i as int)),
    {
        assert(all.take(i + 1).drop_last() == all.take(i as int));
        assert(all[i as int] == list@[i as int]@);
        path = path.child(&list[i]);
    }
    assert(all.take(all.len() as int) == all);
    path
}

fn names_parent(name: &Vec<u8>) -> (r: bool)
    ensures
        r == is_parent_name(name@),
{
    let it = name.len() == 2 && name[0] == 46 && name[1] == 46;
    if it {
        assert(name@ == seq![46u8, 46u8]);
    }
    it
}

/// A list without its first entry, and that entry.
fn split_first(list: Vec<Vec<u8>>) -> (r: (Vec<u8>, Vec<Vec<u8>>))
    requires
        list@.len() > 0,
    ensures
        r.0@ == list@[0]@,
        r.1@.len() == list@.len() - 1,
        byte_strings(r.1@) == byte_strings(list@).skip(1),
{
    let mut rest = list;
    let first = rest.remove(0);
    assert(byte_strings(rest@) == byte_strings(list@).skip(1));
    (first, rest)
}

impl Foresight {
    /// The path that is to be resolved.
    pub fn asked(&self) -> (r: FilePath)
        ensures
            r@ == self@.asked(),
    {
        match &self.stage {
            ForeseeStage::Follow => if self.rest.len() > 0 {
                assert(byte_strings(self.rest@)[0] == self.rest@[0]@);
                self.here.child(&self.rest[0])
            } else {
                self.here.clone()
            },
            _ => self.here.clone(),
        }
    }

    fn onward(self) -> (r: Foresight)
        ensures
            r@ == self@.onward(),
        decreases self.rest@.len(),
    {
        let Foresight { here, missing, rest, stage } = self;
        if rest.len() == 0 {
            let path = path_below(&here, &missing);
            return Foresight { here, missing, rest, stage: ForeseeStage::Done(Ok(path)) };
        }
        assert(byte_strings(rest@)[0] == rest@[0]@);
        if names_parent(&rest[0]) {
            let (_, rest) = split_first(rest);
            let mut missing = missing;
            if missing.len() > 0 {
                let ghost before = byte_strings(missing@);
                missing.pop();
                assert(byte_strings(missing@) == before.drop_last());
                Foresight { here, missing, rest, stage }.onward()
            } else {
                let here = match here.parent() {
                    Some(parent) => parent,
                    None => here,
                };
                Foresight { here, missing, rest, stage }.onward()
            }
        } else if missing.len() > 0 {
            let (name, rest) = split_first(rest);
            let mut missing = missing;
            let ghost before = byte_strings(missing@);
            missing.push(name);
            assert(byte_strings(missing@) == before.push(name@));
            Foresight { here, missing, rest, stage }.onward()
        } else {
            Foresight { here, missing, rest, stage: ForeseeStage::Follow }
        }
    }

    /// Take what became of resolving the path that was asked for.
    pub fn resume(self, reply: Resolution) -> (r: Foresight)
        ensures
            r@ == self@.next(reply),
    {
        let Foresight { here, missing, rest, stage } = self;
        match (stage, reply) {
            (ForeseeStage::Begin, Resolution::Found(path)) => Foresight {
                here: path,
                missing,
                rest,
                stage: ForeseeStage::Begin,
            }.onward(),
            (ForeseeStage::Begin, Resolution::Missing) => Foresight {
                here,
                missing,
                rest,
                stage: ForeseeStage::Begin,
            }.onward(),
            (ForeseeStage::Follow, Resolution::Found(path)) => {
                if rest.len() == 0 {
                    return Foresight { here, missing, rest, stage: ForeseeStage::Follow };
                }
                let (_, rest) = split_first(rest);
                Foresight { here: path, missing, rest, stage: ForeseeStage::Follow }.onward()
            },
            (ForeseeStage::Follow, Resolution::Missing) => {
                if rest.len() == 0 {
                    return Foresight { here, missing, rest, stage: ForeseeStage::Follow };
                }
                assert(byte_strings(rest@)[0] == rest@[0]@);
                let (name, rest) = split_first(rest);
                let mut missing = missing;
                let ghost before = byte_strings(missing@);
                missing.push(name);
                assert(byte_strings(missing@) == before.push(name@));
                Foresight { here, missing, rest, stage: ForeseeStage::Follow }.onward()
            },
            (ForeseeStage::Done(result), _) => Foresight {
                here,
                missing,
                rest,
                stage: ForeseeStage::Done(result),
            },
            (_, Resolution::Failed(cause)) => Foresight {
                here,
                missing,
                rest,
                stage: ForeseeStage::Done(Err(cause)),
            },
        }
    }
}

/// The foresight from `start` after `replies`.
pub open spec fn foresight_after(
    start: ForesightState,
    replies: Seq<Resolution>,
) -> ForesightState {
    after(start, |state: ForesightState, reply: Resolution| state.next(reply), replies)
}

/// Whether the foresight has followed the first `found` of `list` to what exists,
/// and found the next ones missing.
spec fn has_followed(state: ForesightState, list: Seq<Seq<u8>>, found: int) -> bool {
    let at = list.len() - state.rest.len();
    &&& 0 <= found <= at <= list.len()
    &&& state.rest == list.skip(at)
    &&& state.missing == list.subrange(found, at)
    &&& state.stage is Follow ==> found == at && at < list.len()
    &&& state.stage matches ForeseeWait::Done(Ok(path)) ==> at == list.len() && path == below(
        state.here,
        list.skip(found),
    )
}

proof fn lemma_foresight_onward(state: ForesightState, list: Seq<Seq<u8>>, found: int)
    requires
        forall|i: int| 0 <= i < list.len() ==> !is_parent_name(#[trigger] list[i]),
        ({
            let at = list.len() - state.rest.len();
            &&& 0 <= found <= at <= list.len()
            &&& state.rest == list.skip(at)
            &&& state.missing == list.subrange(found, at)
        }),
    ensures
        has_followed(state.onward(), list, found),
        state.onward().here == state.here,
        !(state.onward().stage is Begin),
    decreases state.rest.len(),
{
    let at = list.len() - state.rest.len();
    if state.rest.len() == 0 {
        assert(list.subrange(found, at) == list.skip(found));
    } else {
        assert(state.rest[0] == list[at]);
        assert(!is_parent_name(list[at]));
        if state.missing.len() > 0 {
            let then = ForesightState {
                missing: state.missing.push(state.rest[0]),
                rest: state.rest.skip(1),
                ..state
            };
            assert(then.rest == list.skip(at + 1));
            assert(then.missing == list.subrange(found, at + 1));
            lemma_foresight_onward(then, list, found);
        }
    }
}

proof fn lemma_foresight_history(path: Seq<u8>, replies: Seq<Resolution>) -> (found: int)
    requires
        forall|i: int| 0 <= i < names(path).len() ==> !is_parent_name(#[trigger] names(path)[i]),
    ensures
        has_followed(foresight_after(foresight_start(path), replies), names(path), found),
        foresight_after(foresight_start(path), replies).stage is Begin ==> found == 0
            && foresight_after(foresight_start(path), replies) == foresight_start(path),
    decreases replies.len(),
{
    let start = foresight_start(path);
    let list = names(path);
    if replies.len() == 0 {
        assert(list.skip(0) == list);
        assert(list.subrange(0, 0) == Seq::<Seq<u8>>::empty());
        0
    } else {
        let found = lemma_foresight_history(path, replies.drop_last());
        let before = foresight_after(start, replies.drop_last());
        let reply = replies.last();
        let at = list.len() - before.rest.len();
        match (before.stage, reply) {
            (ForeseeWait::Begin, Resolution::Found(dir)) => {
                assert(list.skip(0) == list);
                assert(list.subrange(0, 0) == Seq::<Seq<u8>>::empty());
                lemma_foresight_onward(ForesightState { here: dir@, ..before }, list, 0);
                0
            },
            (ForeseeWait::Begin, Resolution::Missing) => {
                assert(list.skip(0) == list);
                assert(list.subrange(0, 0) == Seq::<Seq<u8>>::empty());
                lemma_foresight_onward(before, list, 0);
                0
            },
            (ForeseeWait::Follow, Resolution::Found(dir)) => {
                let then = ForesightState { here: dir@, rest: before.rest.skip(1), ..before };
                assert(then.rest == list.skip(at + 1));
                assert(then.missing == list.subrange(at + 1, at + 1));
                lemma_foresight_onward(then, list, at + 1);
                at + 1
            },
            (ForeseeWait::Follow, Resolution::Missing) => {
                let then = ForesightState {
                    missing: before.missing.push(before.rest[0]),
                    rest: before.rest.skip(1),
                    ..before
                };
                assert(then.rest == list.skip(at + 1));
                assert(then.missing == list.subrange(found, at + 1));
                lemma_foresight_onward(then, list, found);
                found
            },
            _ => found,
        }
    }
}

/// Of a path that goes nowhere back up, what is foreseen is the deepest directory
/// along it that was found to exist, resolved, with the missing names behind it.
pub proof fn law_foreseen_is_what_exists_and_the_rest(path: Seq<u8>, replies: Seq<Resolution>)
    requires
        forall|i: int| 0 <= i < names(path).len() ==> !is_parent_name(#[trigger] names(path)[i]),
        foresight_after(foresight_start(path), replies).stage matches ForeseeWait::Done(Ok(_)),
    ensures
        exists|found: int|
            0 <= found <= names(path).len() && foresight_after(
                foresight_start(path),
                replies,
            ).stage == ForeseeWait::Done(
                Ok(
                    #[trigger] below(
                        foresight_after(foresight_start(path), replies).here,
                        names(path).skip(found),
                    ),
                ),
            ),
{
    let found = lemma_foresight_history(path, replies);
    let state = foresight_after(foresight_start(path), replies);
    assert(state.stage == ForeseeWait::Done(Ok(below(state.here, names(path).skip(found)))));
}

/// A file system that nobody changes: what its paths resolve to, where they exist.
pub open spec fn answers(
    resolve: spec_fn(Seq<u8>) -> Option<Seq<u8>>,
    state: ForesightState,
    reply: Resolution,
) -> bool {
    match resolve(state.asked()) {
        Some(path) => reply matches Resolution::Found(found) && found@ == path,
        None => reply is Missing,
    }
}

/// Where `list` leads from the existing directory `dir`: to what exists, and the
/// names that are missing behind it. A name behind a missing one is missing too;
/// `..` takes the last missing name back, or else leads above what exists.
pub open spec fn led_to(
    resolve: spec_fn(Seq<u8>) -> Option<Seq<u8>>,
    dir: Seq<u8>,
    list: Seq<Seq<u8>>,
) -> (Seq<u8>, Seq<Seq<u8>>)
    decreases list.len(),
{
    if list.len() == 0 {
        (dir, Seq::empty())
    } else {
        let (here, missing) = led_to(resolve, dir, list.drop_last());
        let name = list.last();
        if is_parent_name(name) {
            if missing.len() > 0 {
                (here, missing.drop_last())
            } else {
                (above(here), missing)
            }
        } else if missing.len() > 0 {
            (here, missing.push(name))
        } else {
            match resolve(child(here, name)) {
                Some(path) => (path, missing),
                None => (here, missing.push(name)),
            }
        }
    }
}

/// The directory that a path begins in, resolved.
pub open spec fn resolved_beginning(
    resolve: spec_fn(Seq<u8>) -> Option<Seq<u8>>,
    path: Seq<u8>,
) -> Seq<u8> {
    match resolve(beginning(path)) {
        Some(dir) => dir,
        None => beginning(path),
    }
}

/// Where a directory will lie once it is created.
pub open spec fn place_of(resolve: spec_fn(Seq<u8>) -> Option<Seq<u8>>, path: Seq<u8>) -> Seq<u8> {
    let (here, missing) = led_to(resolve, resolved_beginning(resolve, path), names(path));
    below(here, missing)
}

/// Whether the foresight stands where the names that it has followed lead.
spec fn stands(
    resolve: spec_fn(Seq<u8>) -> Option<Seq<u8>>,
    dir: Seq<u8>,
    list: Seq<Seq<u8>>,
    state: ForesightState,
) -> bool {
    let at = list.len() - state.rest.len();
    &&& 0 <= at <= list.len()
    &&& state.rest == list.skip(at)
    &&& (state.here, state.missing) == led_to(resolve, dir, list.take(at))
}

proof fn lemma_stands_onward(
    resolve: spec_fn(Seq<u8>) -> Option<Seq<u8>>,
    dir: Seq<u8>,
    list: Seq<Seq<u8>>,
    state: ForesightState,
)
    requires
        stands(resolve, dir, list, state),
    ensures
        stands(resolve, dir, list, state.onward()),
        match state.onward().stage {
            ForeseeWait::Begin => false,
            ForeseeWait::Follow => {
                let then = state.onward();
                then.rest.len() > 0 && then.missing.len() == 0 && !is_parent_name(then.rest[0])
            },
            ForeseeWait::Done(Ok(path)) => {
                let (here, missing) = led_to(resolve, dir, list);
                path == below(here, missing)
            },
            ForeseeWait::Done(Err(_)) => false,
        },
    decreases state.rest.len(),
{
    let at = list.len() - state.rest.len();
    if state.rest.len() == 0 {
        assert(list.take(at) == list);
    } else {
        assert(state.rest[0] == list[at]);
        assert(list.take(at + 1).drop_last() == list.take(at));
        assert(state.rest.skip(1) == list.skip(at + 1));
        if is_parent_name(state.rest[0]) {
            if state.missing.len() > 0 {
                let then = ForesightState {
                    missing: state.missing.drop_last(),
                    rest: state.rest.skip(1),
                    ..state
                };
                lemma_stands_onward(resolve, dir, list, then);
            } else {
                let then = ForesightState {
                    here: above(state.here),
                    rest: state.rest.skip(1),
                    ..state
                };
                lemma_stands_onward(resolve, dir, list, then);
            }
        } else if state.missing.len() > 0 {
            let then = ForesightState {
                missing: state.missing.push(state.rest[0]),
                rest: state.rest.skip(1),
                ..state
            };
            lemma_stands_onward(resolve, dir, list, then);
        }
    }
}

/// What holds of a foresight in a file system that nobody changes.
spec fn foresight_sound(
    resolve: spec_fn(Seq<u8>) -> Option<Seq<u8>>,
    path: Seq<u8>,
    state: ForesightState,
) -> bool {
    let dir = resolved_beginning(resolve, path);
    match state.stage {
        ForeseeWait::Begin => state == foresight_start(path),
        ForeseeWait::Follow => stands(resolve, dir, names(path), state) && state.rest.len() > 0
            && state.missing.len() == 0 && !is_parent_name(state.rest[0]),
        ForeseeWait::Done(result) => result == Ok::<Seq<u8>, Seq<Seq<char>>>(
            place_of(resolve, path),
        ),
    }
}

proof fn lemma_foresight_step(
    resolve: spec_fn(Seq<u8>) -> Option<Seq<u8>>,
    path: Seq<u8>,
    state: ForesightState,
    reply: Resolution,
)
    requires
        foresight_sound(resolve, path, state),
        answers(resolve, state, reply),
    ensures
        foresight_sound(resolve, path, state.next(reply)),
        state.stage is Begin ==> state.next(reply).rest.len() <= names(path).len(),
        state.stage is Follow ==> state.next(reply).rest.len() < state.rest.len(),
        !(state.next(reply).stage is Begin),
{
    let dir = resolved_beginning(resolve, path);
    let list = names(path);
    match state.stage {
        ForeseeWait::Begin => {
            let then = ForesightState { here: dir, ..state };
            assert(list.take(0) == Seq::<Seq<u8>>::empty());
            assert(list.skip(0) == list);
            assert(stands(resolve, dir, list, then));
            lemma_stands_onward(resolve, dir, list, then);
            lemma_onward_shortens(then);
        },
        ForeseeWait::Follow => {
            let at = list.len() - state.rest.len();
            assert(state.rest[0] == list[at]);
            assert(list.take(at + 1).drop_last() == list.take(at));
            assert(state.rest.skip(1) == list.skip(at + 1));
            let then = match reply {
                Resolution::Found(found) => ForesightState {
                    here: found@,
                    rest: state.rest.skip(1),
                    ..state
                },
                _ => ForesightState {
                    missing: state.missing.push(state.rest[0]),
                    rest: state.rest.skip(1),
                    ..state
                },
            };
            assert(stands(resolve, dir, list, then));
            lemma_stands_onward(resolve, dir, list, then);
            lemma_onward_shortens(then);
        },
        _ => {},
    }
}

proof fn lemma_onward_shortens(state: ForesightState)
    ensures
        state.onward().rest.len() <= state.rest.len(),
    decreases state.rest.len(),
{
    if state.rest.len() > 0 {
        if is_parent_name(state.rest[0]) {
            if state.missing.len() > 0 {
                lemma_onward_shortens(
                    ForesightState {
                        missing: state.missing.drop_last(),
                        rest: state.rest.skip(1),
                        ..state
                    },
                );
            } else {
                lemma_onward_shortens(
                    ForesightState {
                        here: above(state.here),
                        rest: state.rest.skip(1),
                        ..state
                    },
                );
            }
        } else if state.missing.len() > 0 {
            lemma_onward_shortens(
                ForesightState {
                    missing: state.missing.push(state.rest[0]),
                    rest: state.rest.skip(1),
                    ..state
                },
            );
        }
    }
}

/// In a file system that nobody changes, whatever the path, `..` in it or not, a
/// foresight that is over has foreseen the place where the directory will lie:
/// each name followed as far as it exists, each `..` taking back the last missing
/// name, or else leading above what exists.
pub proof fn law_foreseen_is_where_the_path_leads(
    resolve: spec_fn(Seq<u8>) -> Option<Seq<u8>>,
    path: Seq<u8>,
    replies: Seq<Resolution>,
)
    requires
        forall|i: int|
            0 <= i < replies.len() ==> answers(
                resolve,
                foresight_after(foresight_start(path), replies.take(i)),
                #[trigger] replies[i],
            ),
        foresight_after(foresight_start(path), replies).stage is Done,
    ensures
        foresight_after(foresight_start(path), replies).stage == ForeseeWait::Done(
            Ok(place_of(resolve, path)),
        ),
{
    lemma_foresight_is_sound(resolve, path, replies);
}

/// A foresight takes one reply for the directory that the path begins in, and at
/// most one for each name along it.
pub proof fn law_foresight_ends(
    resolve: spec_fn(Seq<u8>) -> Option<Seq<u8>>,
    path: Seq<u8>,
    replies: Seq<Resolution>,
)
    requires
        forall|i: int|
            0 <= i < replies.len() ==> answers(
                resolve,
                foresight_after(foresight_start(path), replies.take(i)),
                #[trigger] replies[i],
            ),
        replies.len() > names(path).len(),
    ensures
        foresight_after(foresight_start(path), replies).stage is Done,
{
    lemma_foresight_is_sound(resolve, path, replies);
}

proof fn lemma_foresight_is_sound(
    resolve: spec_fn(Seq<u8>) -> Option<Seq<u8>>,
    path: Seq<u8>,
    replies: Seq<Resolution>,
)
    requires
        forall|i: int|
            0 <= i < replies.len() ==> answers(
                resolve,
                foresight_after(foresight_start(path), replies.take(i)),
                #[trigger] replies[i],
            ),
    ensures
        foresight_sound(resolve, path, foresight_after(foresight_start(path), replies)),
        ({
            let state = foresight_after(foresight_start(path), replies);
            match state.stage {
                ForeseeWait::Begin => replies.len() == 0,
                ForeseeWait::Follow => replies.len() + state.rest.len() <= names(path).len() + 1,
                ForeseeWait::Done(_) => true,
            }
        }),
    decreases replies.len(),
{
    if replies.len() > 0 {
        let before = replies.drop_last();
        assert forall|i: int| 0 <= i < before.len() implies answers(
            resolve,
            foresight_after(foresight_start(path), before.take(i)),
            #[trigger] before[i],
        ) by {
            assert(before.take(i) == replies.take(i));
            assert(before[i] == replies[i]);
        }
        lemma_foresight_is_sound(resolve, path, before);
        let last = replies.len() - 1;
        assert(replies.take(last) == before);
        assert(replies[last] == replies.last());
        let state = foresight_after(foresight_start(path), before);
        lemma_foresight_step(resolve, path, state, replies.last());
    }
}

/// Names are followed one behind the other: where two lists lead together is where
/// the second leads from where the first does, one name leads to what it names, and
/// none leads nowhere else.
pub proof fn law_names_lead_one_behind_the_other(
    dir: Seq<u8>,
    some: Seq<Seq<u8>>,
    more: Seq<Seq<u8>>,
    name: Seq<u8>,
)
    ensures
        below(dir, Seq::empty()) == dir,
        below(dir, seq![name]) == child(dir, name),
        below(dir, some + more) == below(below(dir, some), more),
    decreases more.len(),
{
    let one = seq![name];
    assert(one.drop_last() == Seq::<Seq<u8>>::empty());
    assert(below(dir, one.drop_last()) == dir);
    if more.len() == 0 {
        assert(some + more == some);
    } else {
        assert((some + more).drop_last() == some + more.drop_last());
        law_names_lead_one_behind_the_other(dir, some, more.drop_last(), name);
    }
}

/// A path begins at the root exactly if it begins with a slash, else in the current
/// directory; `..` alone leads back up, and back from what lies in a directory it
/// leads to that directory.
pub proof fn law_paths_begin_somewhere(path: Seq<u8>, dir: Seq<u8>, name: Seq<u8>)
    ensures
        path.len() > 0 && path[0] == 47 ==> beginning(path) == seq![47u8],
        path.len() == 0 || path[0] != 47 ==> beginning(path) == seq![46u8],
        is_parent_name(name) <==> name.len() == 2 && name[0] == 46 && name[1] == 46,
        name.len() > 0 && name != seq![46u8] && !is_parent_name(name) && (forall|i: int|
            0 <= i < name.len() ==> name[i] != 47) ==> above(child(dir, name)) == tidy_end(dir),
        parent_of(dir) is None ==> above(dir) == dir,
        foresight_start(path).rest == names(path),
        foresight_start(path).missing.len() == 0,
        foresight_start(path).stage is Begin,
{
    if name.len() == 2 && name[0] == 46 && name[1] == 46 {
        assert(name == seq![46u8, 46u8]);
    }
    if name.len() > 0 && name != seq![46u8] && !is_parent_name(name) && (forall|i: int|
        0 <= i < name.len() ==> name[i] != 47) {
        lemma_child(dir, name);
    }
}

/// A path that cannot be followed is told with the cause, as it is.
pub proof fn law_failed_foresight_tells_why(state: ForesightState, cause: Failure)
    requires
        !(state.stage is Done),
    ensures
        state.next(Resolution::Failed(cause)).stage == ForeseeWait::Done(
            Err::<Seq<u8>, Seq<Seq<char>>>(cause@),
        ),
{
}

} // verus!
