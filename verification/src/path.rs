//! File-system paths as plain bytes, the way a Unix system holds them: `/`
//! separates names, and a name need not be valid UTF-8.

use vstd::prelude::*;
use vstd::utf8::{
    char_u32_cast, decode_utf8, encode_scalar, encode_utf8, encode_utf8_decode_utf8,
    encode_utf8_valid_utf8, valid_utf8,
};

use crate::text::{law_splitting_cuts_at_every_separator, split_on};

verus! {

pub const SEPARATOR: u8 = 47;

/// A path. Its view is its bytes.
#[derive(Debug, PartialEq, Eq)]
pub struct FilePath {
    pub bytes: Vec<u8>,
}

impl View for FilePath {
    type V = Seq<u8>;

    open spec fn view(&self) -> Seq<u8> {
        self.bytes@
    }
}

impl Clone for FilePath {
    fn clone(&self) -> (r: FilePath)
        ensures
            r@ == self@,
    {
        FilePath { bytes: self.bytes.clone() }
    }
}

/// What `String::from_utf8_lossy` makes of `bytes`.
pub uninterp spec fn lossy_text(bytes: Seq<u8>) -> Seq<char>;

/// The text that `bytes` are shown as: what they encode, where they are valid
/// UTF-8.
pub open spec fn shown(bytes: Seq<u8>) -> Seq<char> {
    if valid_utf8(bytes) {
        decode_utf8(bytes)
    } else {
        lossy_text(bytes)
    }
}

/// `String::from_utf8_lossy`: the text that `bytes` encode, each ill-formed part
/// replaced by U+FFFD; well-formed bytes are decoded as they are.
#[verifier::external_body]
fn lossy(bytes: &Vec<u8>) -> (r: String)
    ensures
        r@ == lossy_text(bytes@),
        valid_utf8(bytes@) ==> r@ == decode_utf8(bytes@),
{
    String::from_utf8_lossy(bytes).into_owned()
}

/// The text that `bytes` are shown as.
pub fn text_of(bytes: &Vec<u8>) -> (r: String)
    ensures
        r@ == shown(bytes@),
{
    lossy(bytes)
}

/// The path of `name` in the directory `dir`.
pub open spec fn child(dir: Seq<u8>, name: Seq<u8>) -> Seq<u8> {
    if dir.len() == 0 || dir.last() == SEPARATOR {
        dir + name
    } else {
        dir.push(SEPARATOR) + name
    }
}

/// Whether a piece of a path names something: the empty piece and `.` do not.
pub open spec fn is_name(piece: Seq<u8>) -> bool {
    piece.len() > 0 && piece != seq![46u8]
}

/// Whether a name leads back up.
pub open spec fn is_parent_name(name: Seq<u8>) -> bool {
    name == seq![46u8, 46u8]
}

/// The names along a path.
pub open spec fn names(path: Seq<u8>) -> Seq<Seq<u8>> {
    split_on(path, SEPARATOR).filter(|piece: Seq<u8>| is_name(piece))
}

pub open spec fn is_absolute(path: Seq<u8>) -> bool {
    path.len() > 0 && path[0] == SEPARATOR
}

/// Whether `path` is `base` or lies below it, whole names considered. Both are
/// meant to be canonical (absolute, free of `..` and links).
pub open spec fn lies_within(path: Seq<u8>, base: Seq<u8>) -> bool {
    is_absolute(path) == is_absolute(base) && names(base).is_prefix_of(names(path))
}

/// Whether two paths spell the same place, name by name.
pub open spec fn same_place(a: Seq<u8>, b: Seq<u8>) -> bool {
    is_absolute(a) == is_absolute(b) && names(a) == names(b)
}

/// The bytes of every piece of a list.
pub open spec fn byte_strings(list: Seq<Vec<u8>>) -> Seq<Seq<u8>> {
    list.map_values(|v: Vec<u8>| v@)
}

/// The bytes of every path of a list.
pub open spec fn paths(list: Seq<FilePath>) -> Seq<Seq<u8>> {
    list.map_values(|p: FilePath| p@)
}

/// Whether two byte strings are the same.
pub fn same_bytes(a: &Vec<u8>, b: &Vec<u8>) -> (r: bool)
    ensures
        r == (a@ == b@),
{
    if a.len() != b.len() {
        return false;
    }
    for i in 0..a.len()
        invariant
            a@.len() == b@.len(),
            forall|j: int| 0 <= j < i ==> a@[j] == b@[j],
    {
        if a[i] != b[i] {
            return false;
        }
    }
    assert(a@ == b@);
    true
}

/// The names along `path`.
pub fn names_of(path: &Vec<u8>) -> (r: Vec<Vec<u8>>)
    ensures
        byte_strings(r@) == names(path@),
{
    let mut found: Vec<Vec<u8>> = Vec::new();
    let mut piece: Vec<u8> = Vec::new();
    let ghost keep = |piece: Seq<u8>| is_name(piece);
    assert(path@.take(0) == Seq::<u8>::empty());
    assert(split_on(path@.take(0), SEPARATOR).drop_last() == Seq::<Seq<u8>>::empty());
    proof {
        reveal(Seq::filter);
    }
    for i in 0..path.len()
        invariant
            keep == (|piece: Seq<u8>| is_name(piece)),
            split_on(path@.take(i as int), SEPARATOR).len() > 0,
            split_on(path@.take(i as int), SEPARATOR).last() == piece@,
            byte_strings(found@) == split_on(path@.take(i as int), SEPARATOR).drop_last().filter(
                keep,
            ),
    {
        let ghost before = split_on(path@.take(i as int), SEPARATOR);
        let ghost kept = byte_strings(found@);
        assert(path@.take(i + 1).drop_last() == path@.take(i as int));
        if path[i] == SEPARATOR {
            let ghost after = before.push(Seq::empty());
            assert(after.drop_last() == before);
            proof {
                reveal(Seq::filter);
            }
            if keep_name(&piece) {
                found.push(piece);
                assert(byte_strings(found@) == kept.push(before.last()));
            }
            piece = Vec::new();
        } else {
            piece.push(path[i]);
            assert(before.drop_last().push(piece@).drop_last() == before.drop_last());
        }
    }
    assert(path@.take(path@.len() as int) == path@);
    let ghost kept = byte_strings(found@);
    proof {
        reveal(Seq::filter);
    }
    if keep_name(&piece) {
        let ghost last = piece@;
        found.push(piece);
        assert(byte_strings(found@) == kept.push(last));
    }
    found
}

fn keep_name(piece: &Vec<u8>) -> (r: bool)
    ensures
        r == is_name(piece@),
{
    if piece.len() == 0 {
        false
    } else if piece.len() == 1 && piece[0] == 46 {
        assert(piece@ == seq![46u8]);
        false
    } else {
        true
    }
}

impl FilePath {
    /// The path that `text` spells.
    pub fn from_text(text: &str) -> (r: FilePath)
        ensures
            r@ == encode_utf8(text@),
    {
        FilePath { bytes: text.as_bytes_vec() }
    }

    /// The path of `name` in this directory.
    pub fn child(&self, name: &Vec<u8>) -> (r: FilePath)
        ensures
            r@ == child(self@, name@),
    {
        let mut bytes = self.bytes.clone();
        if bytes.len() > 0 && bytes[bytes.len() - 1] != SEPARATOR {
            bytes.push(SEPARATOR);
        }
        let mut tail = name.clone();
        bytes.append(&mut tail);
        FilePath { bytes }
    }

    /// The path of the file called `name` in this directory.
    pub fn file(&self, name: &str) -> (r: FilePath)
        ensures
            r@ == child(self@, encode_utf8(name@)),
    {
        self.child(&name.as_bytes_vec())
    }

    /// Whether two paths spell the same place.
    pub fn same_place(&self, other: &FilePath) -> (r: bool)
        ensures
            r == same_place(self@, other@),
    {
        let within = self.lies_within(other) && other.lies_within(self);
        proof {
            let mine = names(self@);
            let theirs = names(other@);
            if within {
                assert(mine.len() == theirs.len());
                assert(mine.subrange(0, theirs.len() as int) == mine);
            } else if same_place(self@, other@) {
                assert(mine.subrange(0, theirs.len() as int) == theirs);
            }
        }
        within
    }

    /// Whether this path is `base` or lies below it.
    pub fn lies_within(&self, base: &FilePath) -> (r: bool)
        ensures
            r == lies_within(self@, base@),
    {
        let a = names_of(&self.bytes);
        let b = names_of(&base.bytes);
        let a_absolute = self.bytes.len() > 0 && self.bytes[0] == SEPARATOR;
        let b_absolute = base.bytes.len() > 0 && base.bytes[0] == SEPARATOR;
        if a_absolute != b_absolute || b.len() > a.len() {
            return false;
        }
        for i in 0..b.len()
            invariant
                b@.len() <= a@.len(),
                byte_strings(a@) == names(self@),
                byte_strings(b@) == names(base@),
                forall|j: int| 0 <= j < i ==> a@[j]@ == b@[j]@,
        {
            if !same_bytes(&a[i], &b[i]) {
                assert(names(self@).subrange(0, b@.len() as int)[i as int] != names(base@)[i as int]);
                return false;
            }
        }
        assert(names(base@) == names(self@).subrange(0, b@.len() as int));
        true
    }

    /// The path as text, for a message.
    pub fn display(&self) -> (r: String)
        ensures
            r@ == shown(self@),
    {
        text_of(&self.bytes)
    }
}

/// A path without separators and dots that lead nowhere at its end.
pub open spec fn tidy_end(path: Seq<u8>) -> Seq<u8>
    decreases path.len(),
{
    if path.len() > 1 && path.last() == SEPARATOR {
        tidy_end(path.drop_last())
    } else if path.len() > 1 && path.last() == 46 && path[path.len() - 2] == SEPARATOR {
        tidy_end(path.drop_last())
    } else {
        path
    }
}

/// What stands behind the last separator.
pub open spec fn last_piece(path: Seq<u8>) -> Seq<u8>
    decreases path.len(),
{
    if path.len() == 0 || path.last() == SEPARATOR {
        Seq::empty()
    } else {
        last_piece(path.drop_last()).push(path.last())
    }
}

/// The directory that a path lies in; none for the root and the empty path.
pub open spec fn parent_of(path: Seq<u8>) -> Option<Seq<u8>> {
    let tidy = tidy_end(path);
    if last_piece(tidy).len() == 0 {
        None
    } else {
        Some(tidy_end(tidy.take(tidy.len() - last_piece(tidy).len())))
    }
}

/// The name that a path ends in; none where it ends in `.` or `..`, or in no
/// name at all.
pub open spec fn file_name_of(path: Seq<u8>) -> Option<Seq<u8>> {
    let name = last_piece(tidy_end(path));
    if name.len() == 0 || name == seq![46u8] || name == seq![46u8, 46u8] {
        None
    } else {
        Some(name)
    }
}

proof fn lemma_last_piece(path: Seq<u8>, from: int)
    requires
        0 <= from <= path.len(),
        from == 0 || path[from - 1] == SEPARATOR,
        forall|i: int| from <= i < path.len() ==> path[i] != SEPARATOR,
    ensures
        last_piece(path) == path.skip(from),
    decreases path.len() - from,
{
    if from < path.len() {
        lemma_last_piece(path.drop_last(), from);
        assert(path.skip(from) == path.drop_last().skip(from).push(path.last()));
    }
}

fn tidy(path: Vec<u8>) -> (r: Vec<u8>)
    ensures
        r@ == tidy_end(path@),
{
    let mut bytes = path;
    while bytes.len() > 1 && (bytes[bytes.len() - 1] == SEPARATOR || (bytes[bytes.len() - 1] == 46
        && bytes[bytes.len() - 2] == SEPARATOR))
        invariant
            tidy_end(bytes@) == tidy_end(path@),
        decreases bytes@.len(),
    {
        let ghost before = bytes@;
        bytes.pop();
        assert(bytes@ == before.drop_last());
    }
    bytes
}

/// Where the last piece of a path begins.
fn last_piece_at(path: &Vec<u8>) -> (at: usize)
    ensures
        at <= path@.len(),
        last_piece(path@) == path@.skip(at as int),
{
    let mut at: usize = path.len();
    while at > 0 && path[at - 1] != SEPARATOR
        invariant
            at <= path@.len(),
            forall|i: int| at <= i < path@.len() ==> path@[i] != SEPARATOR,
        decreases at,
    {
        at = at - 1;
    }
    proof {
        lemma_last_piece(path@, at as int);
    }
    at
}

impl FilePath {
    /// The directory that this path lies in.
    pub fn parent(&self) -> (r: Option<FilePath>)
        ensures
            match r {
                Some(dir) => parent_of(self@) == Some(dir@),
                None => parent_of(self@) is None,
            },
    {
        let mut bytes = tidy(self.bytes.clone());
        let at: usize = last_piece_at(&bytes);
        if at == bytes.len() {
            return None;
        }
        let ghost whole = bytes@;
        bytes.truncate(at);
        assert(bytes@ == whole.take(whole.len() - last_piece(whole).len()));
        Some(FilePath { bytes: tidy(bytes) })
    }

    /// The name that this path ends in.
    pub fn file_name(&self) -> (r: Option<Vec<u8>>)
        ensures
            match r {
                Some(name) => file_name_of(self@) == Some(name@),
                None => file_name_of(self@) is None,
            },
    {
        let mut bytes = tidy(self.bytes.clone());
        let at: usize = last_piece_at(&bytes);
        let name = bytes.split_off(at);
        if name.len() == 0 {
            return None;
        }
        if name.len() == 1 && name[0] == 46 {
            assert(name@ == seq![46u8]);
            return None;
        }
        if name.len() == 2 && name[0] == 46 && name[1] == 46 {
            assert(name@ == seq![46u8, 46u8]);
            return None;
        }
        Some(name)
    }
}

/// What lies directly in a directory has its name, and that directory for a
/// parent.
pub proof fn lemma_child(dir: Seq<u8>, name: Seq<u8>)
    requires
        name.len() > 0,
        name != seq![46u8],
        name != seq![46u8, 46u8],
        forall|i: int| 0 <= i < name.len() ==> name[i] != SEPARATOR,
    ensures
        file_name_of(child(dir, name)) == Some(name),
        parent_of(child(dir, name)) == Some(tidy_end(dir)),
{
    let path = child(dir, name);
    let from = path.len() - name.len();
    assert(path.skip(from) == name);
    assert(path.last() == name.last());
    assert(forall|i: int| from <= i < path.len() ==> path[i] == name[i - from]);
    lemma_last_piece(path, from);
    if path.last() == 46 && name.len() == 1 {
        assert(name == seq![46u8]);
    }
    if path.len() > 1 && path.last() == 46 {
        assert(path[path.len() - 2] == name[name.len() - 2]);
    }
    assert(tidy_end(path) == path);
    let above = path.take(from);
    if dir.len() > 0 && dir.last() != SEPARATOR {
        assert(above == dir.push(SEPARATOR));
        assert(above.drop_last() == dir);
    } else {
        assert(above == dir);
    }
}

proof fn lemma_scalar_bytes(c: u32)
    requires
        c != 47,
    ensures
        forall|i: int|
            0 <= i < encode_scalar(c).len() ==> #[trigger] encode_scalar(c)[i] != SEPARATOR,
{
    assert((c & 0x7F) as u8 != 47 || c > 0x7f) by (bit_vector)
        requires
            c != 47,
    ;
    assert((0xC0u8 | ((c >> 6) & 0x1F) as u8) >= 0x80) by (bit_vector);
    assert((0xE0u8 | ((c >> 12) & 0x0F) as u8) >= 0x80) by (bit_vector);
    assert((0xF0u8 | ((c >> 18) & 0x7) as u8) >= 0x80) by (bit_vector);
    assert((0x80u8 | (c & 0x3F) as u8) >= 0x80) by (bit_vector);
    assert((0x80u8 | ((c >> 6) & 0x3F) as u8) >= 0x80) by (bit_vector);
    assert((0x80u8 | ((c >> 12) & 0x3F) as u8) >= 0x80) by (bit_vector);
}

/// A text without a slash is encoded without a separator.
pub proof fn lemma_no_separator(text: Seq<char>)
    requires
        !text.contains('/'),
    ensures
        forall|i: int|
            0 <= i < encode_utf8(text).len() ==> #[trigger] encode_utf8(text)[i] != SEPARATOR,
    decreases text.len(),
{
    if text.len() > 0 {
        let rest = text.drop_first();
        assert(text.contains(text[0]));
        assert(!rest.contains('/')) by {
            if rest.contains('/') {
                let k = choose|k: int| 0 <= k < rest.len() && rest[k] == '/';
                assert(text[k + 1] == '/');
            }
        }
        lemma_no_separator(rest);
        let scalar = text[0] as u32;
        char_u32_cast(text[0], scalar);
        assert(scalar as char != '/');
        lemma_scalar_bytes(scalar);
        let first = encode_scalar(text[0] as u32);
        assert forall|i: int| 0 <= i < encode_utf8(text).len() implies #[trigger] encode_utf8(
            text,
        )[i] != SEPARATOR by {
            if i < first.len() {
                assert(encode_utf8(text)[i] == first[i]);
            } else {
                assert(encode_utf8(text)[i] == encode_utf8(rest)[i - first.len()]);
            }
        }
    }
}

/// What a text is encoded as, is shown as that text.
pub proof fn lemma_shown(text: Seq<char>)
    ensures
        shown(encode_utf8(text)) == text,
{
    encode_utf8_valid_utf8(text);
    encode_utf8_decode_utf8(text);
}

/// `<what><path>`.
pub fn about(what: &str, path: &FilePath) -> (r: String)
    ensures
        r@ == what@ + shown(path@),
{
    let mut message = what.to_string();
    message.append(path.display().as_str());
    message
}

/// `rename <from> -> <to>`.
pub open spec fn renaming(from: Seq<u8>, to: Seq<u8>) -> Seq<char> {
    "rename "@ + shown(from) + " -> "@ + shown(to)
}

/// `rename <from> -> <to>`.
pub fn renaming_text(from: &FilePath, to: &FilePath) -> (r: String)
    ensures
        r@ == renaming(from@, to@),
{
    let mut message = about("rename ", from);
    message.append(" -> ");
    message.append(to.display().as_str());
    message
}

/// A copy of a list of paths.
pub fn copy_paths(list: &Vec<FilePath>) -> (r: Vec<FilePath>)
    ensures
        paths(r@) == paths(list@),
{
    let mut out: Vec<FilePath> = Vec::new();
    for i in 0..list.len()
        invariant
            paths(out@) == paths(list@).take(i as int),
    {
        let ghost before = paths(out@);
        out.push(list[i].clone());
        assert(paths(out@) == before.push(list@[i as int]@));
        assert(paths(list@).take(i + 1) == paths(list@).take(i as int).push(list@[i as int]@));
    }
    assert(paths(list@).take(list@.len() as int) == paths(list@));
    out
}

/// What lies in a directory lies behind it and one separator; a directory that
/// ends in a separator, or is the empty path, needs none.
pub proof fn law_children_lie_behind_a_separator(dir: Seq<u8>, name: Seq<u8>)
    ensures
        dir.len() > 0 && dir.last() != 47 ==> child(dir, name) == dir + seq![47u8] + name,
        dir.len() > 0 && dir.last() == 47 ==> child(dir, name) == dir + name,
        dir.len() == 0 ==> child(dir, name) == name,
{
    assert(dir.push(47u8) == dir + seq![47u8]);
    if dir.len() == 0 {
        assert(dir + name == name);
    }
}

/// The names along a path are those of its two sides, wherever it is cut at a
/// separator; a piece without one is a name, unless it is empty or `.`.
pub proof fn law_names_are_what_separators_part(before: Seq<u8>, after: Seq<u8>)
    ensures
        names(before + seq![47u8] + after) == names(before) + names(after),
        !before.contains(47u8) ==> names(before) == if before.len() == 0 || before == seq![46u8] {
            Seq::<Seq<u8>>::empty()
        } else {
            seq![before]
        },
{
    reveal(Seq::filter);
    let keep = |piece: Seq<u8>| is_name(piece);
    assert(before + seq![47u8] + after == before.push(SEPARATOR) + after);
    law_splitting_cuts_at_every_separator(before, after, SEPARATOR);
    Seq::filter_distributes_over_add(
        split_on(before, SEPARATOR),
        split_on(after, SEPARATOR),
        keep,
    );
    if !before.contains(47u8) {
        let one = seq![before];
        assert(one.drop_last() == Seq::<Seq<u8>>::empty());
        assert(one.drop_last().filter(keep) == Seq::<Seq<u8>>::empty());
        assert(one.filter(keep) == names(before));
        if is_name(before) {
            assert(one.filter(keep) == seq![before]);
        }
    }
}

/// One path lies within another exactly if both start at the root or neither
/// does, and the names along the other are the first names along it; two paths
/// spell one place exactly if each lies within the other.
pub proof fn law_within_means_beginning_with_the_same_names(path: Seq<u8>, base: Seq<u8>)
    ensures
        lies_within(path, base) <==> {
            &&& (path.len() > 0 && path[0] == 47) == (base.len() > 0 && base[0] == 47)
            &&& names(base).len() <= names(path).len()
            &&& forall|i: int| 0 <= i < names(base).len() ==> names(base)[i] == names(path)[i]
        },
        same_place(path, base) <==> lies_within(path, base) && lies_within(base, path),
{
    let a = names(path);
    let b = names(base);
    if b.len() <= a.len() && (forall|i: int| 0 <= i < b.len() ==> b[i] == a[i]) {
        assert(a.subrange(0, b.len() as int) == b);
    }
    if b.is_prefix_of(a) {
        assert forall|i: int| 0 <= i < b.len() implies b[i] == a[i] by {
            assert(a.subrange(0, b.len() as int)[i] == a[i]);
        }
    }
    if b.is_prefix_of(a) && a.is_prefix_of(b) {
        assert(a.subrange(0, b.len() as int) == a);
    }
    if a == b {
        assert(a.subrange(0, b.len() as int) == b);
    }
}

/// A separator at the end of a path, or a `.` behind one, changes neither its name
/// nor its parent.
pub proof fn law_trailing_separators_do_not_count(path: Seq<u8>)
    requires
        path.len() > 0,
    ensures
        file_name_of(path.push(47u8)) == file_name_of(path),
        parent_of(path.push(47u8)) == parent_of(path),
        file_name_of(path.push(47u8).push(46u8)) == file_name_of(path),
        parent_of(path.push(47u8).push(46u8)) == parent_of(path),
{
    assert(path.push(47u8).drop_last() == path);
    assert(path.push(47u8).push(46u8).drop_last() == path.push(47u8));
}

/// A text that is encoded is shown as it was, and a path is shown as the text that
/// it encodes.
pub proof fn law_valid_paths_are_shown_as_they_are(text: Seq<char>)
    ensures
        shown(encode_utf8(text)) == text,
{
    lemma_shown(text);
}

/// A text takes at least as many bytes as it has characters.
pub proof fn lemma_encoding_is_no_shorter(text: Seq<char>)
    ensures
        encode_utf8(text).len() >= text.len(),
    decreases text.len(),
{
    if text.len() > 0 {
        lemma_encoding_is_no_shorter(text.drop_first());
    }
}

/// Lists of paths and of byte strings are seen one by one, each as its own bytes.
pub proof fn law_paths_are_seen_one_by_one(list: Seq<FilePath>, pieces: Seq<Vec<u8>>, i: int)
    ensures
        paths(list).len() == list.len(),
        0 <= i < list.len() ==> paths(list)[i] == list[i].bytes@,
        byte_strings(pieces).len() == pieces.len(),
        0 <= i < pieces.len() ==> byte_strings(pieces)[i] == pieces[i]@,
{
}

/// Where a path ends, in full: what lies in a directory has it for a parent, and
/// its own name unless that is `..`; the root and the empty path have neither
/// parent nor name; and only separators, and dots behind them, are taken off an
/// end.
pub proof fn law_paths_end_in_a_name(dir: Seq<u8>, name: Seq<u8>)
    requires
        name.len() > 0,
        name != seq![46u8],
        !name.contains(47u8),
    ensures
        parent_of(child(dir, name)) == Some(tidy_end(dir)),
        file_name_of(child(dir, name)) == if name == seq![46u8, 46u8] {
            None::<Seq<u8>>
        } else {
            Some(name)
        },
        parent_of(Seq::empty()) is None && file_name_of(Seq::empty()) is None,
        parent_of(seq![47u8]) is None && file_name_of(seq![47u8]) is None,
        tidy_end(child(dir, name)) == child(dir, name),
        tidy_end(seq![47u8]) == seq![47u8] && tidy_end(Seq::empty()) == Seq::<u8>::empty(),
        dir.len() > 0 ==> tidy_end(dir.push(47u8)) == tidy_end(dir) && tidy_end(
            dir.push(47u8).push(46u8),
        ) == tidy_end(dir),
{
    let path = child(dir, name);
    let from = path.len() - name.len();
    assert(path.skip(from) == name);
    assert(forall|i: int| from <= i < path.len() ==> path[i] == name[i - from]);
    assert forall|i: int| from <= i < path.len() implies path[i] != SEPARATOR by {
        assert(name.contains(name[i - from]));
    }
    lemma_last_piece(path, from);
    if path.last() == 46 && path.len() > 1 && path[path.len() - 2] == SEPARATOR {
        if name.len() == 1 {
            assert(name == seq![46u8]);
        }
        assert(false);
    }
    assert(tidy_end(path) == path);
    assert(path.take(from) == if dir.len() == 0 || dir.last() == SEPARATOR {
        dir
    } else {
        dir.push(SEPARATOR)
    });
    assert(dir.push(47u8).drop_last() == dir);
    let dotted = dir.push(47u8).push(46u8);
    assert(dotted.drop_last() == dir.push(47u8));
    if dir.len() > 0 {
        assert(dotted[dotted.len() - 2] == SEPARATOR);
        assert(tidy_end(dir.push(47u8)) == tidy_end(dir));
        assert(tidy_end(dotted) == tidy_end(dir.push(47u8)));
    }
}

/// A renaming is told with both paths, as they are shown.
pub proof fn law_renamings_tell_both_paths(from: Seq<u8>, to: Seq<u8>)
    ensures
        renaming(from, to) == seq!['r', 'e', 'n', 'a', 'm', 'e', ' '] + shown(from) + seq![
            ' ',
            '-',
            '>',
            ' ',
        ] + shown(to),
{
    reveal_strlit("rename ");
    reveal_strlit(" -> ");
    assert("rename "@ == seq!['r', 'e', 'n', 'a', 'm', 'e', ' ']);
    assert(" -> "@ == seq![' ', '-', '>', ' ']);
}

} // verus!
