//! Where the object store keeps a key: the names along it, percent-encoded where
//! object stores advise against their characters.

use vstd::prelude::*;
use vstd::utf8::{
    encode_utf8, encode_utf8_decode_utf8, is_ascii_chars, is_ascii_chars_encode_utf8,
};

use crate::calendar::{
    in_range, lemma_stamp_characters, lemma_stamp_length, lemma_stamp_reads_back,
    lemma_unsigned_is_stamp, parse_stamp, stamp_seconds, stamp_text, unsigned_seconds, Moment,
    MAX_SECONDS, YEAR_ZERO_SECONDS,
};
use crate::config::EncryptionType;
use crate::naming::{
    archive_name, archive_name_text, archive_seconds, final_name, final_name_text,
    law_archives_are_recognised_exactly, law_files_are_called_by_name_and_stamp,
    lemma_bytes_of_concat, lemma_extensions, name_problem,
};
use crate::retention::is_archive_of;
use crate::text::{
    after_last, chars_of, contains_char, joined, same_text, split_on, strip_suffix, text_between,
};

verus! {

/// Whether a byte stands for itself in a location: printable ASCII, but for
/// `" # % * / < > ? [ \ ] ^ ` { | } ~`.
pub open spec fn is_kept(b: u8) -> bool {
    &&& 32 <= b <= 126
    &&& b != 34 && b != 35 && b != 37 && b != 42 && b != 47 && b != 60 && b != 62 && b != 63
    &&& b != 91 && b != 92 && b != 93 && b != 94 && b != 96
    &&& b != 123 && b != 124 && b != 125 && b != 126
}

pub open spec fn hex_digit(n: int) -> char {
    if n < 10 {
        (48 + n) as char
    } else {
        (55 + n) as char
    }
}

/// A byte as it stands, or as `%` and its two hexadecimal digits.
pub open spec fn encoded_byte(b: u8) -> Seq<char> {
    if is_kept(b) {
        seq![b as char]
    } else {
        seq!['%', hex_digit(b as int / 16), hex_digit(b as int % 16)]
    }
}

pub open spec fn encoded_bytes(bytes: Seq<u8>) -> Seq<char>
    decreases bytes.len(),
{
    if bytes.len() == 0 {
        Seq::empty()
    } else {
        encoded_byte(bytes[0]) + encoded_bytes(bytes.skip(1))
    }
}

/// One name along a key. The names `.` and `..` are encoded too.
pub open spec fn encoded_name(name: Seq<char>) -> Seq<char> {
    if name == seq!['.'] {
        seq!['%', '2', 'E']
    } else if name == seq!['.', '.'] {
        seq!['%', '2', 'E', '%', '2', 'E']
    } else {
        encoded_bytes(encode_utf8(name))
    }
}

/// The names of a list, encoded; empty ones are dropped.
pub open spec fn encoded_names(list: Seq<Seq<char>>) -> Seq<Seq<char>>
    decreases list.len(),
{
    if list.len() == 0 {
        Seq::empty()
    } else {
        let before = encoded_names(list.drop_last());
        if list.last().len() == 0 {
            before
        } else {
            before.push(encoded_name(list.last()))
        }
    }
}

/// The location of `key` in the object store.
pub open spec fn location_of(key: Seq<char>) -> Seq<char> {
    joined(encoded_names(split_on(key, '/')), "/"@)
}

/// `object_store::path::Path::from`: the names between the slashes of a key, the
/// empty ones dropped, each percent-encoded, with a slash between each two. The
/// bytes that are encoded are the control characters, everything beyond ASCII,
/// and the characters that `is_kept` leaves out; `.` and `..` are encoded whole.
#[verifier::external_body]
fn store_path(text: &str) -> (r: String)
    ensures
        r@ == location_of(text@),
{
    object_store::path::Path::from(text).to_string()
}

/// The location of `key` in the object store.
pub fn location(key: &str) -> (r: String)
    ensures
        r@ == location_of(key@),
{
    store_path(key)
}

/// The stamp that an archive's location ends in, and what its extension says of
/// the encryption: the stamp is the twenty characters before the extension.
pub open spec fn stamp_at_end(segment: Seq<char>) -> Option<(Seq<char>, EncryptionType)> {
    let n = segment.len() as int;
    if ".tgz"@.is_suffix_of(segment) && n >= 24 {
        Some((segment.subrange(n - 24, n - 4), EncryptionType::Plaintext))
    } else if ".tgz.gpg"@.is_suffix_of(segment) && n >= 28 {
        Some((segment.subrange(n - 28, n - 8), EncryptionType::Openpgp))
    } else {
        None
    }
}

/// The second at which the archive of the name `name` was stamped whose location
/// ends in `segment`: that must be exactly the location of
/// `<name>-YYYY-MM-DDTHH:MM:SSZ.tgz`, or of the same with `.gpg` behind it. A name
/// that holds a slash has no archives: it is no single name along a key.
pub open spec fn object_seconds(segment: Seq<char>, name: Seq<char>) -> Option<int> {
    match stamp_at_end(segment) {
        Some((stamp, encryption)) => if !name.contains('/') && segment == location_of(
            final_name_text(archive_name_text(name, stamp), encryption),
        ) {
            unsigned_seconds(stamp, false)
        } else {
            None
        },
        None => None,
    }
}

/// The moment that an archive of the name `name` is stamped with, if `segment` is
/// the location of such an archive.
pub fn object_stamp(segment: &str, name: &str) -> (r: Option<Moment>)
    ensures
        r is Some <==> object_seconds(segment@, name@) is Some,
        r matches Some(m) ==> object_seconds(segment@, name@) == Some(m@ / 1_000_000_000) && m@
            % 1_000_000_000 == 0,
{
    proof {
        lemma_extensions();
    }
    if contains_char(name, '/') {
        return None;
    }
    let chars = chars_of(segment);
    let (to, encryption): (usize, EncryptionType) = if strip_suffix(segment, ".tgz").is_some()
        && chars.len() >= 24 {
        (chars.len() - 4, EncryptionType::Plaintext)
    } else if strip_suffix(segment, ".tgz.gpg").is_some() && chars.len() >= 28 {
        (chars.len() - 8, EncryptionType::Openpgp)
    } else {
        return None;
    };
    let stamp = text_between(&chars, to - 20, to);
    assert(stamp_at_end(segment@) == Some((stamp@, encryption)));
    let file_name = final_name(archive_name(name, stamp.as_str()).as_str(), encryption);
    if !same_text(location(file_name.as_str()).as_str(), segment) {
        return None;
    }
    assert(stamp_seconds(stamp@) is Some ==> stamp_seconds(stamp@) == unsigned_seconds(
        stamp@,
        false,
    ));
    assert(unsigned_seconds(stamp@, false) is Some ==> stamp_seconds(stamp@) is Some);
    parse_stamp(stamp.as_str())
}

proof fn lemma_encoded_concat(a: Seq<u8>, b: Seq<u8>)
    ensures
        encoded_bytes(a + b) == encoded_bytes(a) + encoded_bytes(b),
    decreases a.len(),
{
    if a.len() == 0 {
        assert(a + b == b);
        assert(encoded_bytes(a) + encoded_bytes(b) == encoded_bytes(b));
    } else {
        assert((a + b).skip(1) == a.skip(1) + b);
        lemma_encoded_concat(a.skip(1), b);
        assert(encoded_bytes(a + b) == encoded_bytes(a) + encoded_bytes(b));
    }
}

/// Bytes that stand for themselves are encoded as the text that they spell.
proof fn lemma_kept_bytes(bytes: Seq<u8>, text: Seq<char>)
    requires
        bytes.len() == text.len(),
        forall|i: int|
            0 <= i < bytes.len() ==> is_kept(#[trigger] bytes[i]) && bytes[i] as char == text[i],
    ensures
        encoded_bytes(bytes) == text,
    decreases bytes.len(),
{
    if bytes.len() > 0 {
        assert(is_kept(bytes[0]));
        assert forall|i: int| 0 <= i < bytes.skip(1).len() implies is_kept(
            #[trigger] bytes.skip(1)[i],
        ) && bytes.skip(1)[i] as char == text.skip(1)[i] by {
            assert(is_kept(bytes[i + 1]));
        }
        lemma_kept_bytes(bytes.skip(1), text.skip(1));
        assert(encoded_bytes(bytes) == seq![text[0]] + text.skip(1));
    }
    assert(encoded_bytes(bytes) == text);
}

/// Whether a character stands for itself in a location.
pub open spec fn is_plain(c: char) -> bool {
    ' ' <= c <= '~' && is_kept(c as u8)
}

/// Whether a text is made of characters that stand for themselves.
pub open spec fn is_plain_text(text: Seq<char>) -> bool {
    forall|i: int| 0 <= i < text.len() ==> is_plain(#[trigger] text[i])
}

proof fn lemma_plain_text(text: Seq<char>)
    requires
        is_plain_text(text),
    ensures
        encoded_bytes(encode_utf8(text)) == text,
{
    assert forall|i: int| 0 <= i < text.len() implies '\0' <= #[trigger] text[i] <= '\u{7f}' by {
        assert(is_plain(text[i]));
    }
    assert(is_ascii_chars(text));
    is_ascii_chars_encode_utf8(text);
    let bytes = encode_utf8(text);
    assert forall|i: int| 0 <= i < bytes.len() implies is_kept(#[trigger] bytes[i]) && bytes[i]
        as char == text[i] by {
        assert(is_plain(text[i]));
        assert(bytes[i] == text[i] as u8);
    }
    lemma_kept_bytes(bytes, text);
}

proof fn lemma_hex(n: int)
    requires
        0 <= n < 16,
    ensures
        hex_digit(n) != '/',
        hex_digit(n) as int == if n < 10 {
            48 + n
        } else {
            55 + n
        },
{
}

/// No slash stands in an encoded name.
proof fn lemma_encoded_has_no_slash(bytes: Seq<u8>)
    ensures
        !encoded_bytes(bytes).contains('/'),
    decreases bytes.len(),
{
    if bytes.len() > 0 {
        let b = bytes[0];
        let first = encoded_byte(b);
        let rest = encoded_bytes(bytes.skip(1));
        lemma_encoded_has_no_slash(bytes.skip(1));
        lemma_hex(b as int / 16);
        lemma_hex(b as int % 16);
        if (first + rest).contains('/') {
            let k = choose|k: int| 0 <= k < (first + rest).len() && (first + rest)[k] == '/';
            if k >= first.len() {
                assert(rest[k - first.len()] == '/');
            } else {
                assert(first[k] == '/');
                if is_kept(b) {
                    assert(b as char == '/');
                    assert((b as char) as u32 == b as u32);
                }
            }
            assert(false);
        }
    }
}

proof fn lemma_name_has_no_slash(name: Seq<char>)
    ensures
        !encoded_name(name).contains('/'),
{
    lemma_encoded_has_no_slash(encode_utf8(name));
}

/// What stands behind a slash is a piece of its own.
proof fn lemma_split_behind_slash(head: Seq<char>, name: Seq<char>)
    requires
        !name.contains('/'),
    ensures
        split_on(head.push('/') + name, '/') == split_on(head, '/').push(name),
    decreases name.len(),
{
    let whole = head.push('/') + name;
    if name.len() == 0 {
        assert(whole == head.push('/'));
        assert(whole.drop_last() == head);
        assert(name == Seq::<char>::empty());
    } else {
        assert(whole.drop_last() == head.push('/') + name.drop_last());
        assert(name.contains(name.last()));
        lemma_no_slash_before(name);
        lemma_split_behind_slash(head, name.drop_last());
        let before = split_on(head, '/').push(name.drop_last());
        assert(before.drop_last() == split_on(head, '/'));
        assert(name.drop_last().push(name.last()) == name);
    }
}

proof fn lemma_no_slash_before(name: Seq<char>)
    requires
        name.len() > 0,
        !name.contains('/'),
    ensures
        !name.drop_last().contains('/'),
{
    let front = name.drop_last();
    if front.contains('/') {
        let k = choose|k: int| 0 <= k < front.len() && front[k] == '/';
        assert(name[k] == '/');
    }
}

/// A text without a slash is one piece.
proof fn lemma_split_whole(name: Seq<char>)
    requires
        !name.contains('/'),
    ensures
        split_on(name, '/') == seq![name],
    decreases name.len(),
{
    if name.len() == 0 {
        assert(name == Seq::<char>::empty());
    } else {
        assert(name.contains(name.last()));
        lemma_no_slash_before(name);
        lemma_split_whole(name.drop_last());
        let before = seq![name.drop_last()];
        assert(name.drop_last().push(name.last()) == name);
        assert(split_on(name, '/') == before.drop_last().push(name));
        assert(before.drop_last().push(name) == seq![name]);
    }
}

/// The location of a single name is that name, encoded.
proof fn lemma_location_of_name(name: Seq<char>)
    requires
        !name.contains('/'),
        name.len() > 0,
    ensures
        location_of(name) == encoded_name(name),
{
    lemma_split_whole(name);
    let list = seq![name];
    assert(list.drop_last() == Seq::<Seq<char>>::empty());
    assert(encoded_names(list.drop_last()) == Seq::<Seq<char>>::empty());
    assert(encoded_names(list) == seq![encoded_name(name)]);
}

/// What follows the last slash of a text that ends in a name behind one.
pub proof fn lemma_after_last(head: Seq<char>, name: Seq<char>, c: char)
    requires
        !name.contains(c),
        head.len() == 0 || head.last() == c,
    ensures
        after_last(head + name, c) == name,
    decreases name.len(),
{
    let whole = head + name;
    if name.len() == 0 {
        assert(whole == head);
    } else {
        assert(whole.drop_last() == head + name.drop_last());
        assert(name.contains(name.last()));
        assert(!name.drop_last().contains(c)) by {
            if name.drop_last().contains(c) {
                let k = choose|k: int| 0 <= k < name.drop_last().len() && name.drop_last()[k] == c;
                assert(name[k] == c);
            }
        }
        lemma_after_last(head, name.drop_last(), c);
        assert(name.drop_last().push(name.last()) == name);
    }
}

/// The last name along a location is the location of the last name along the key:
/// encoding keeps the levels of a key apart.
pub proof fn law_last_names_are_encoded_alone(head: Seq<char>, name: Seq<char>)
    requires
        !name.contains('/'),
        name.len() > 0,
    ensures
        after_last(location_of(head.push('/') + name), '/') == location_of(name),
        after_last(location_of(name), '/') == location_of(name),
{
    reveal_strlit("/");
    let empty = Seq::<char>::empty();
    let own = encoded_name(name);
    lemma_location_of_name(name);
    lemma_name_has_no_slash(name);
    assert(empty + own == own);
    lemma_after_last(empty, own, '/');
    lemma_split_behind_slash(head, name);
    let pieces = split_on(head, '/').push(name);
    let before = encoded_names(split_on(head, '/'));
    assert(pieces.drop_last() == split_on(head, '/'));
    assert(encoded_names(pieces) == before.push(own));
    assert(before.push(own).drop_last() == before);
    if before.len() > 0 {
        lemma_after_last(joined(before, "/"@) + "/"@, own, '/');
    }
}

/// A name and what a run puts behind it are encoded one after the other, and what
/// is put behind it is not changed.
proof fn lemma_archive_location(name: Seq<char>, stamp: Seq<char>, encryption: EncryptionType)
    requires
        !name.contains('/'),
        is_plain_text(stamp),
    ensures
        ({
            let file = final_name_text(archive_name_text(name, stamp), encryption);
            let tail = final_name_text("-"@ + stamp + ".tgz"@, encryption);
            &&& !file.contains('/')
            &&& file.len() > 2
            &&& location_of(file) == encoded_bytes(encode_utf8(name)) + tail
        }),
{
    lemma_extensions();
    let file = final_name_text(archive_name_text(name, stamp), encryption);
    let tail = final_name_text("-"@ + stamp + ".tgz"@, encryption);
    assert(file == name + tail);
    assert forall|i: int| 0 <= i < tail.len() implies is_plain(#[trigger] tail[i]) by {
        if 1 <= i < 1 + stamp.len() {
            assert(tail[i] == stamp[i - 1]);
            assert(is_plain(stamp[i - 1]));
        }
    }
    if file.contains('/') {
        let k = choose|k: int| 0 <= k < file.len() && file[k] == '/';
        if k < name.len() {
            assert(name[k] == '/');
        } else {
            assert(is_plain(tail[k - name.len()]));
        }
        assert(false);
    }
    lemma_location_of_name(file);
    lemma_bytes_of_concat(name, tail);
    lemma_encoded_concat(encode_utf8(name), encode_utf8(tail));
    lemma_plain_text(tail);
}

proof fn lemma_stamp_is_plain(nanos: int)
    requires
        in_range(nanos),
    ensures
        is_plain_text(stamp_text(nanos)),
{
    lemma_stamp_characters(nanos);
}

/// What a run calls its artifact is a single name.
pub proof fn lemma_artifact_is_one_name(name: Seq<char>, nanos: int, encryption: EncryptionType)
    requires
        name_problem(name) is None,
        in_range(nanos),
    ensures
        ({
            let file = final_name_text(archive_name_text(name, stamp_text(nanos)), encryption);
            !file.contains('/') && file.len() > 0
        }),
{
    lemma_stamp_is_plain(nanos);
    lemma_archive_location(name, stamp_text(nanos), encryption);
}

proof fn lemma_stamp_found(name: Seq<char>, nanos: int, encryption: EncryptionType)
    requires
        !name.contains('/'),
        in_range(nanos),
        nanos >= YEAR_ZERO_SECONDS * 1_000_000_000,
    ensures
        stamp_at_end(
            location_of(final_name_text(archive_name_text(name, stamp_text(nanos)), encryption)),
        ) == Some((stamp_text(nanos), encryption)),
{
    let stamp = stamp_text(nanos);
    lemma_extensions();
    lemma_stamp_length(nanos);
    lemma_stamp_is_plain(nanos);
    lemma_archive_location(name, stamp, encryption);
    let front = encoded_bytes(encode_utf8(name));
    let segment = location_of(final_name_text(archive_name_text(name, stamp), encryption));
    let n = segment.len() as int;
    match encryption {
        EncryptionType::Plaintext => {
            assert(segment == front + "-"@ + stamp + ".tgz"@);
            assert(segment.subrange(n - 4, n) == ".tgz"@);
            assert(segment.subrange(n - 24, n - 4) == stamp);
        },
        EncryptionType::Openpgp => {
            assert(segment == front + "-"@ + stamp + ".tgz.gpg"@);
            assert(segment.subrange(n - 8, n) == ".tgz.gpg"@);
            assert(segment.subrange(n - 28, n - 8) == stamp);
            assert(segment.last() == 'g');
            assert(!".tgz"@.is_suffix_of(segment)) by {
                assert(segment.subrange(n - 4, n)[3] == 'g');
            }
        },
    }
}

/// What a run uploads under an accepted name is recognised where the store lists
/// it, whatever characters the name is made of, as an archive of that name and of
/// the second at which the run started.
pub proof fn law_uploaded_archives_are_recognised(
    name: Seq<char>,
    nanos: int,
    encryption: EncryptionType,
)
    requires
        name_problem(name) is None,
        in_range(nanos),
        nanos >= YEAR_ZERO_SECONDS * 1_000_000_000,
    ensures
        ({
            let file = final_name_text(archive_name_text(name, stamp_text(nanos)), encryption);
            object_seconds(location_of(file), name) == Some(nanos / 1_000_000_000)
        }),
{
    lemma_stamp_found(name, nanos, encryption);
    lemma_stamp_reads_back(nanos);
    lemma_stamp_length(nanos);
}

/// An object is taken for an archive of a name exactly if its location ends in
/// what a run under that name, started in the second in question, would have
/// uploaded. Anything else is left alone.
pub proof fn law_objects_are_recognised_exactly(
    segment: Seq<char>,
    name: Seq<char>,
    seconds: int,
)
    ensures
        object_seconds(segment, name) == Some(seconds) <==> {
            let archive = archive_name_text(name, stamp_text(seconds * 1_000_000_000));
            &&& !name.contains('/')
            &&& YEAR_ZERO_SECONDS <= seconds <= MAX_SECONDS
            &&& segment == location_of(final_name_text(archive, EncryptionType::Plaintext))
                || segment == location_of(final_name_text(archive, EncryptionType::Openpgp))
        },
{
    let nanos = seconds * 1_000_000_000;
    if object_seconds(segment, name) == Some(seconds) {
        let (stamp, encryption) = stamp_at_end(segment)->0;
        lemma_unsigned_is_stamp(stamp);
    }
    if !name.contains('/') && YEAR_ZERO_SECONDS <= seconds <= MAX_SECONDS {
        lemma_stamp_found(name, nanos, EncryptionType::Plaintext);
        lemma_stamp_found(name, nanos, EncryptionType::Openpgp);
        lemma_stamp_reads_back(nanos);
        lemma_stamp_length(nanos);
    }
}

/// Different bytes are encoded differently.
proof fn lemma_encoding_tells_apart(a: Seq<u8>, b: Seq<u8>)
    requires
        encoded_bytes(a) == encoded_bytes(b),
    ensures
        a == b,
    decreases a.len(),
{
    if a.len() == 0 || b.len() == 0 {
        if a.len() > 0 {
            assert(encoded_bytes(a).len() > 0);
        }
        if b.len() > 0 {
            assert(encoded_bytes(b).len() > 0);
        }
        assert(a == b);
    } else {
        let x = encoded_byte(a[0]);
        let y = encoded_byte(b[0]);
        let whole = encoded_bytes(a);
        assert(whole[0] == x[0] && whole[0] == y[0]);
        assert((a[0] as char) as u32 == a[0] as u32 && (b[0] as char) as u32 == b[0] as u32);
        assert(is_kept(a[0]) == is_kept(b[0]));
        if !is_kept(a[0]) {
            assert(whole[1] == x[1] && whole[1] == y[1]);
            assert(whole[2] == x[2] && whole[2] == y[2]);
            lemma_hex(a[0] as int / 16);
            lemma_hex(a[0] as int % 16);
            lemma_hex(b[0] as int / 16);
            lemma_hex(b[0] as int % 16);
            assert(a[0] as int / 16 == b[0] as int / 16);
            assert(a[0] as int % 16 == b[0] as int % 16);
        }
        assert(a[0] == b[0]);
        assert(encoded_bytes(a.skip(1)) == whole.skip(x.len() as int));
        assert(encoded_bytes(b.skip(1)) == whole.skip(y.len() as int));
        lemma_encoding_tells_apart(a.skip(1), b.skip(1));
        assert(a == seq![a[0]] + a.skip(1));
        assert(b == seq![b[0]] + b.skip(1));
    }
}

/// An object is the archive of at most one name.
pub proof fn law_objects_have_one_name(segment: Seq<char>, a: Seq<char>, b: Seq<char>)
    requires
        object_seconds(segment, a) is Some,
        object_seconds(segment, b) is Some,
    ensures
        a == b,
{
    let (stamp, encryption) = stamp_at_end(segment)->0;
    lemma_unsigned_is_stamp(stamp);
    lemma_stamp_is_plain(unsigned_seconds(stamp, false)->0 * 1_000_000_000);
    lemma_archive_location(a, stamp, encryption);
    lemma_archive_location(b, stamp, encryption);
    let one = encoded_bytes(encode_utf8(a));
    let two = encoded_bytes(encode_utf8(b));
    let tail = final_name_text("-"@ + stamp + ".tgz"@, encryption);
    assert(one + tail == two + tail);
    assert(one == (one + tail).take(one.len() as int));
    assert(two == (two + tail).take(two.len() as int));
    lemma_encoding_tells_apart(encode_utf8(a), encode_utf8(b));
    encode_utf8_decode_utf8(a);
    encode_utf8_decode_utf8(b);
}

/// The objects of one name are no archives of any other name.
pub proof fn law_objects_of_other_names_are_left_alone(
    own: Seq<char>,
    other: Seq<char>,
    nanos: int,
    encryption: EncryptionType,
)
    requires
        own != other,
        name_problem(own) is None,
        in_range(nanos),
        nanos >= YEAR_ZERO_SECONDS * 1_000_000_000,
    ensures
        object_seconds(
            location_of(final_name_text(archive_name_text(own, stamp_text(nanos)), encryption)),
            other,
        ) is None,
{
    let segment = location_of(
        final_name_text(archive_name_text(own, stamp_text(nanos)), encryption),
    );
    law_uploaded_archives_are_recognised(own, nanos, encryption);
    if object_seconds(segment, other) is Some {
        law_objects_have_one_name(segment, own, other);
    }
}

/// Of a name made of characters that stand for themselves, objects and local files
/// are recognised alike.
pub proof fn law_plain_names_are_recognised_alike(segment: Seq<char>, name: Seq<char>)
    requires
        is_plain_text(name),
    ensures
        object_seconds(segment, name) == archive_seconds(segment, name),
{
    if name.contains('/') {
        let k = choose|k: int| 0 <= k < name.len() && name[k] == '/';
        assert(is_plain(name[k]));
    }
    lemma_plain_text(name);
    assert forall|seconds: int| #[trigger]
        object_is(segment, name, seconds) implies archive_seconds(segment, name) == Some(
        seconds,
    ) by {
        law_objects_are_recognised_exactly(segment, name, seconds);
        law_archives_are_recognised_exactly(segment, name, seconds);
        lemma_plain_locations(name, seconds);
    }
    if object_seconds(segment, name) is Some {
        assert(object_is(segment, name, object_seconds(segment, name)->0));
    }
    if archive_seconds(segment, name) is Some {
        let seconds = archive_seconds(segment, name)->0;
        law_objects_are_recognised_exactly(segment, name, seconds);
        law_archives_are_recognised_exactly(segment, name, seconds);
        lemma_plain_locations(name, seconds);
    }
}

spec fn object_is(segment: Seq<char>, name: Seq<char>, seconds: int) -> bool {
    object_seconds(segment, name) == Some(seconds)
}

proof fn lemma_plain_locations(name: Seq<char>, seconds: int)
    requires
        is_plain_text(name),
        !name.contains('/'),
    ensures
        YEAR_ZERO_SECONDS <= seconds <= MAX_SECONDS ==> {
            let archive = archive_name_text(name, stamp_text(seconds * 1_000_000_000));
            &&& location_of(final_name_text(archive, EncryptionType::Plaintext))
                == final_name_text(archive, EncryptionType::Plaintext)
            &&& location_of(final_name_text(archive, EncryptionType::Openpgp))
                == final_name_text(archive, EncryptionType::Openpgp)
        },
{
    if YEAR_ZERO_SECONDS <= seconds <= MAX_SECONDS {
        let stamp = stamp_text(seconds * 1_000_000_000);
        lemma_plain_text(name);
        lemma_stamp_is_plain(seconds * 1_000_000_000);
        lemma_archive_location(name, stamp, EncryptionType::Plaintext);
        lemma_archive_location(name, stamp, EncryptionType::Openpgp);
        let archive = archive_name_text(name, stamp);
        assert(name + ("-"@ + stamp + ".tgz"@) == archive);
        assert(name + ("-"@ + stamp + ".tgz"@ + ".gpg"@) == archive + ".gpg"@);
    }
}

proof fn lemma_split_joins(text: Seq<char>)
    ensures
        joined(split_on(text, '/'), "/"@) == text,
    decreases text.len(),
{
    reveal_strlit("/");
    let pieces = split_on(text, '/');
    if text.len() == 0 {
        assert(joined(pieces, "/"@) == text);
    } else {
        let front = text.drop_last();
        let before = split_on(front, '/');
        lemma_split_joins(front);
        crate::text::lemma_split_nonempty(front, '/');
        if text.last() == '/' {
            assert(pieces.drop_last() == before);
            assert(joined(pieces, "/"@) == front + "/"@ + Seq::<char>::empty());
            assert(joined(pieces, "/"@) == text);
        } else {
            let last = before.last().push(text.last());
            assert(pieces == before.drop_last().push(last));
            assert(pieces.drop_last() == before.drop_last());
            if before.len() == 1 {
                assert(joined(pieces, "/"@) == last);
                assert(joined(before, "/"@) == before[0]);
            } else {
                let lead = joined(before.drop_last(), "/"@) + "/"@;
                assert(joined(before, "/"@) == lead + before.last());
                assert(joined(pieces, "/"@) == lead + last);
            }
            assert(joined(pieces, "/"@) == front.push(text.last()));
            assert(front.push(text.last()) == text);
        }
    }
}

/// Whether a key is made of plain names, none of them empty, `.` or `..`.
pub open spec fn is_plain_key(key: Seq<char>) -> bool {
    forall|i: int|
        0 <= i < split_on(key, '/').len() ==> {
            let name = #[trigger] split_on(key, '/')[i];
            name.len() > 0 && name != seq!['.'] && name != seq!['.', '.'] && is_plain_text(name)
        }
}

proof fn lemma_plain_names(list: Seq<Seq<char>>)
    requires
        forall|i: int|
            0 <= i < list.len() ==> {
                let name = #[trigger] list[i];
                name.len() > 0 && name != seq!['.'] && name != seq!['.', '.'] && is_plain_text(name)
            },
    ensures
        encoded_names(list) == list,
    decreases list.len(),
{
    if list.len() > 0 {
        assert forall|i: int| 0 <= i < list.drop_last().len() implies {
            let name = #[trigger] list.drop_last()[i];
            name.len() > 0 && name != seq!['.'] && name != seq!['.', '.'] && is_plain_text(name)
        } by {
            assert(list.drop_last()[i] == list[i]);
        }
        lemma_plain_names(list.drop_last());
        lemma_plain_text(list[list.len() - 1]);
        assert(list.drop_last().push(list.last()) == list);
    } else {
        assert(encoded_names(list) == list);
    }
}

/// A key of plain names is its own location.
pub proof fn law_plain_keys_are_their_own_location(key: Seq<char>)
    requires
        is_plain_key(key),
    ensures
        location_of(key) == key,
{
    lemma_plain_names(split_on(key, '/'));
    lemma_split_joins(key);
}

/// Wherever in the bucket it lies, an object whose location ends, behind a slash,
/// in that of an archive of a name is recognised as one of that name and second.
pub proof fn law_archives_are_found_behind_any_prefix(
    head: Seq<char>,
    file: Seq<char>,
    name: Seq<char>,
    seconds: int,
)
    requires
        head.len() == 0 || head.last() == '/',
        is_archive_of(file, name, seconds),
        !name.contains('/'),
    ensures
        object_seconds(after_last(head + location_of(file), '/'), name) == Some(seconds),
{
    let stamp = stamp_text(seconds * 1_000_000_000);
    law_files_are_called_by_name_and_stamp(name, stamp, 0);
    lemma_stamp_is_plain(seconds * 1_000_000_000);
    lemma_archive_location(name, stamp, EncryptionType::Plaintext);
    lemma_archive_location(name, stamp, EncryptionType::Openpgp);
    lemma_location_of_name(file);
    lemma_name_has_no_slash(file);
    lemma_after_last(head, location_of(file), '/');
    law_objects_are_recognised_exactly(location_of(file), name, seconds);
}

} // verus!
