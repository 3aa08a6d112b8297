//! The names of archives: which prefixes are accepted, how an archive is called,
//! and how an archive's name is read back.

use vstd::prelude::*;
use vstd::utf8::{encode_utf8, is_ascii_chars, is_ascii_chars_encode_utf8};

use crate::calendar::{
    in_range, lemma_stamp_characters, lemma_stamp_length, lemma_stamp_reads_back,
    lemma_unsigned_is_stamp, parse_stamp, stamp_seconds, stamp_text, unsigned_seconds, Moment,
    MAX_SECONDS, YEAR_ZERO_SECONDS,
};
use crate::config::EncryptionType;
use crate::text::{contains_char, decimal, number_text, starts_with, strip_prefix, strip_suffix};

verus! {

/// Longest accepted archive name, in bytes: even the longest file name derived
/// from it stays below the 255 bytes that file systems allow.
pub const MAX_NAME_BYTES: usize = 200;

/// Why an archive name is refused.
#[derive(Debug, Clone, Copy, PartialEq, Eq, Structural)]
pub enum NameError {
    /// The name is empty.
    Empty,
    /// The name contains `/` or NUL.
    Forbidden,
    /// The name has more than `MAX_NAME_BYTES` bytes.
    TooLong { bytes: usize },
}

/// What is wrong with `name`, if anything. It is used verbatim as a file-name
/// prefix, so the path separator and NUL are out, and its bytes are counted.
pub open spec fn name_problem(name: Seq<char>) -> Option<NameError> {
    if name.len() == 0 {
        Some(NameError::Empty)
    } else if name.contains('/') || name.contains('\0') {
        Some(NameError::Forbidden)
    } else if encode_utf8(name).len() > MAX_NAME_BYTES {
        Some(NameError::TooLong { bytes: encode_utf8(name).len() as usize })
    } else {
        None
    }
}

/// Refuse a name that cannot begin a file name.
pub fn check_archive_name(name: &str) -> (r: Result<(), NameError>)
    ensures
        match name_problem(name@) {
            Some(problem) => r == Err::<(), NameError>(problem),
            None => r is Ok,
        },
{
    if name.is_empty() {
        return Err(NameError::Empty);
    }
    if contains_char(name, '/') || contains_char(name, '\0') {
        return Err(NameError::Forbidden);
    }
    let bytes: usize = name.as_bytes().len();
    if bytes > MAX_NAME_BYTES {
        return Err(NameError::TooLong { bytes });
    }
    Ok(())
}

/// What `{:?}` prints for a text.
pub uninterp spec fn quoted_text(text: Seq<char>) -> Seq<char>;

/// The `Debug` output of a string (`str`'s `fmt::Debug`, through `format!`).
#[verifier::external_body]
fn quoted(text: &str) -> (r: String)
    ensures
        r@ == quoted_text(text@),
{
    format!("{:?}", text)
}

impl NameError {
    /// What the error says about `name`.
    pub open spec fn message_text(self, name: Seq<char>) -> Seq<char> {
        match self {
            NameError::Empty => "--name must not be empty"@,
            NameError::Forbidden => "--name must not contain '/' or NUL: "@ + quoted_text(name),
            NameError::TooLong { bytes } => "--name is too long: "@ + decimal(bytes as nat)
                + " bytes (max 200; the final file is `<name>-<UTC stamp>.tgz[.gpg]`, and delivery adds a `.part`)"@,
        }
    }

    /// What the error says about `name`.
    pub fn message(&self, name: &str) -> (r: String)
        ensures
            r@ == self.message_text(name@),
    {
        match self {
            NameError::Empty => "--name must not be empty".to_string(),
            NameError::Forbidden => {
                let mut out = "--name must not contain '/' or NUL: ".to_string();
                out.append(quoted(name).as_str());
                out
            },
            NameError::TooLong { bytes } => {
                let mut out = "--name is too long: ".to_string();
                out.append(number_text(*bytes as u128).as_str());
                out.append(
                    " bytes (max 200; the final file is `<name>-<UTC stamp>.tgz[.gpg]`, and delivery adds a `.part`)",
                );
                out
            },
        }
    }
}

/// `<name>-<stamp>.tgz`.
pub open spec fn archive_name_text(name: Seq<char>, stamp: Seq<char>) -> Seq<char> {
    name + "-"@ + stamp + ".tgz"@
}

/// The name of the artifact that is delivered: the archive's own, with `.gpg`
/// behind it where it is encrypted.
pub open spec fn final_name_text(archive: Seq<char>, encryption: EncryptionType) -> Seq<char> {
    match encryption {
        EncryptionType::Plaintext => archive,
        EncryptionType::Openpgp => archive + ".gpg"@,
    }
}

/// `<name>-<stamp>.tgz`.
pub fn archive_name(name: &str, stamp: &str) -> (r: String)
    ensures
        r@ == archive_name_text(name@, stamp@),
{
    let mut out = name.to_string();
    out.append("-");
    out.append(stamp);
    out.append(".tgz");
    out
}

/// The name of the artifact that is delivered.
pub fn final_name(archive: &str, encryption: EncryptionType) -> (r: String)
    ensures
        r@ == final_name_text(archive@, encryption),
{
    let mut out = archive.to_string();
    match encryption {
        EncryptionType::Plaintext => {},
        EncryptionType::Openpgp => {
            out.append(".gpg");
        },
    }
    out
}

/// The name under which a delivery is still incomplete: the artifact's, with the
/// process that writes it behind.
pub open spec fn part_name_text(file_name: Seq<char>, process: nat) -> Seq<char> {
    file_name + ".part."@ + decimal(process)
}

/// The name under which a delivery is still incomplete. Two processes never
/// share it, so that neither can publish what the other has half written.
pub fn part_name(file_name: &str, process: u32) -> (r: String)
    ensures
        r@ == part_name_text(file_name@, process as nat),
{
    let mut out = file_name.to_string();
    out.append(".part.");
    out.append(number_text(process as u128).as_str());
    out
}

/// The part of an archive's file name between `<name>-` and its extension.
pub open spec fn stamp_part(file_name: Seq<char>, name: Seq<char>) -> Option<Seq<char>> {
    let prefix = name + "-"@;
    if !prefix.is_prefix_of(file_name) {
        None
    } else {
        let rest = file_name.skip(prefix.len() as int);
        if ".tgz"@.is_suffix_of(rest) {
            Some(rest.take(rest.len() - ".tgz"@.len()))
        } else if ".tgz.gpg"@.is_suffix_of(rest) {
            Some(rest.take(rest.len() - ".tgz.gpg"@.len()))
        } else {
            None
        }
    }
}

/// The second at which the archive `file_name` of the name `name` was stamped:
/// the file must be called exactly `<name>-YYYY-MM-DDTHH:MM:SSZ.tgz`, or the
/// same with `.gpg` behind it.
pub open spec fn archive_seconds(file_name: Seq<char>, name: Seq<char>) -> Option<int> {
    match stamp_part(file_name, name) {
        Some(part) => unsigned_seconds(part, false),
        None => None,
    }
}

/// The moment that the archive `file_name` of the name `name` is stamped with,
/// if it is such an archive.
pub fn archive_stamp(file_name: &str, name: &str) -> (r: Option<Moment>)
    ensures
        r is Some <==> archive_seconds(file_name@, name@) is Some,
        r matches Some(m) ==> archive_seconds(file_name@, name@) == Some(m@ / 1_000_000_000) && m@
            % 1_000_000_000 == 0,
{
    let mut prefix = name.to_string();
    prefix.append("-");
    let rest = match strip_prefix(file_name, &prefix) {
        Some(rest) => rest,
        None => {
            return None;
        },
    };
    assert(rest@ == file_name@.skip(prefix@.len() as int));
    let middle = match strip_suffix(&rest, ".tgz") {
        Some(middle) => {
            assert(middle@ == rest@.take(rest@.len() - ".tgz"@.len()));
            middle
        },
        None => match strip_suffix(&rest, ".tgz.gpg") {
            Some(middle) => {
                assert(middle@ == rest@.take(rest@.len() - ".tgz.gpg"@.len()));
                middle
            },
            None => {
                return None;
            },
        },
    };
    proof {
        reveal_strlit("-");
        reveal_strlit("+");
        assert("-"@ == seq!['-']);
        assert("+"@ == seq!['+']);
        if middle@.len() > 0 {
            assert(middle@.subrange(0, 1) == seq![middle@[0]]);
            assert("-"@.is_prefix_of(middle@) ==> seq![middle@[0]][0] == seq!['-'][0]);
            assert("+"@.is_prefix_of(middle@) ==> seq![middle@[0]][0] == seq!['+'][0]);
        }
    }
    if starts_with(&middle, "-") || starts_with(&middle, "+") {
        // A sign is no part of `YYYY`.
        assert(!crate::calendar::is_digit(middle@[0]));
        return None;
    }
    assert(stamp_seconds(middle@) == unsigned_seconds(middle@, false));
    parse_stamp(&middle)
}

/// The characters of the extensions.
pub proof fn lemma_extensions()
    ensures
        "-"@ == seq!['-'],
        ".tgz"@ == seq!['.', 't', 'g', 'z'],
        ".gpg"@ == seq!['.', 'g', 'p', 'g'],
        ".tgz.gpg"@ == ".tgz"@ + ".gpg"@,
{
    reveal_strlit("-");
    reveal_strlit(".tgz");
    reveal_strlit(".gpg");
    reveal_strlit(".tgz.gpg");
    assert("-"@ == seq!['-']);
    assert(".tgz"@ == seq!['.', 't', 'g', 'z']);
    assert(".gpg"@ == seq!['.', 'g', 'p', 'g']);
    assert(".tgz.gpg"@ == ".tgz"@ + ".gpg"@);
}

/// The stamp part of a file name is what stands between the name and the
/// extension, whatever it is.
proof fn lemma_stamp_part(name: Seq<char>, part: Seq<char>, encryption: EncryptionType)
    ensures
        stamp_part(final_name_text(archive_name_text(name, part), encryption), name) == Some(part),
{
    lemma_extensions();
    let prefix = name + "-"@;
    let file = final_name_text(archive_name_text(name, part), encryption);
    assert(prefix.is_prefix_of(file)) by {
        assert(file.subrange(0, prefix.len() as int) == prefix);
    }
    let rest = file.skip(prefix.len() as int);
    match encryption {
        EncryptionType::Plaintext => {
            assert(rest == part + ".tgz"@);
            assert(rest.subrange(rest.len() - 4, rest.len() as int) == ".tgz"@);
            assert(rest.take(rest.len() - 4) == part);
        },
        EncryptionType::Openpgp => {
            assert(rest == part + ".tgz.gpg"@);
            assert(rest.subrange(rest.len() - 8, rest.len() as int) == ".tgz.gpg"@);
            assert(rest.take(rest.len() - 8) == part);
            assert(rest.last() == 'g');
            assert(!".tgz"@.is_suffix_of(rest)) by {
                assert(rest.subrange(rest.len() - 4, rest.len() as int)[3] == 'g');
            }
        },
    }
}

/// A file is taken for an archive of a name exactly if it is called what a run
/// under that name, started in the second in question, would have called its
/// artifact. Anything else is left alone.
pub proof fn law_archives_are_recognised_exactly(
    file_name: Seq<char>,
    name: Seq<char>,
    seconds: int,
)
    ensures
        archive_seconds(file_name, name) == Some(seconds) <==> {
            let archive = archive_name_text(name, stamp_text(seconds * 1_000_000_000));
            &&& YEAR_ZERO_SECONDS <= seconds <= MAX_SECONDS
            &&& file_name == final_name_text(archive, EncryptionType::Plaintext) || file_name
                == final_name_text(archive, EncryptionType::Openpgp)
        },
{
    lemma_extensions();
    let archive = archive_name_text(name, stamp_text(seconds * 1_000_000_000));
    if archive_seconds(file_name, name) == Some(seconds) {
        let part = stamp_part(file_name, name)->0;
        lemma_unsigned_is_stamp(part);
        let prefix = name + "-"@;
        let rest = file_name.skip(prefix.len() as int);
        assert(file_name == prefix + rest);
        if ".tgz"@.is_suffix_of(rest) {
            assert(rest == part + ".tgz"@);
            assert(file_name == archive);
        } else {
            assert(rest == part + ".tgz.gpg"@);
            assert(file_name == archive + ".gpg"@);
        }
    }
    if YEAR_ZERO_SECONDS <= seconds <= MAX_SECONDS {
        lemma_stamp_part(name, stamp_text(seconds * 1_000_000_000), EncryptionType::Plaintext);
        lemma_stamp_part(name, stamp_text(seconds * 1_000_000_000), EncryptionType::Openpgp);
        lemma_stamp_reads_back(seconds * 1_000_000_000);
        lemma_stamp_length(seconds * 1_000_000_000);
    }
}

/// What a run calls its artifact reads back as the second at which the run
/// started.
pub proof fn law_archive_name_reads_back(name: Seq<char>, nanos: int, encryption: EncryptionType)
    requires
        in_range(nanos),
        nanos >= YEAR_ZERO_SECONDS * 1_000_000_000,
    ensures
        archive_seconds(
            final_name_text(archive_name_text(name, stamp_text(nanos)), encryption),
            name,
        ) == Some(nanos / 1_000_000_000),
{
    lemma_stamp_part(name, stamp_text(nanos), encryption);
    lemma_stamp_reads_back(nanos);
    lemma_stamp_length(nanos);
}

/// The archives of one name are no archives of any other name.
pub proof fn law_other_names_are_left_alone(
    own: Seq<char>,
    other: Seq<char>,
    nanos: int,
    encryption: EncryptionType,
)
    requires
        own != other,
        in_range(nanos),
        nanos >= YEAR_ZERO_SECONDS * 1_000_000_000,
    ensures
        archive_seconds(
            final_name_text(archive_name_text(own, stamp_text(nanos)), encryption),
            other,
        ) is None,
{
    lemma_extensions();
    lemma_stamp_length(nanos);
    let file = final_name_text(archive_name_text(own, stamp_text(nanos)), encryption);
    if archive_seconds(file, other) is Some {
        let seconds = archive_seconds(file, other)->0;
        law_archives_are_recognised_exactly(file, other, seconds);
        lemma_stamp_length(seconds * 1_000_000_000);
        let archive = archive_name_text(other, stamp_text(seconds * 1_000_000_000));
        assert(archive.last() == 'z' && (archive + ".gpg"@).last() == 'g');
        assert(archive_name_text(own, stamp_text(nanos)).last() == 'z');
        assert(own.len() == other.len());
        assert(own == file.take(own.len() as int));
        assert(other == file.take(other.len() as int));
        assert(false);
    }
}

/// Text is encoded piece by piece.
pub proof fn lemma_bytes_of_concat(a: Seq<char>, b: Seq<char>)
    ensures
        encode_utf8(a + b) == encode_utf8(a) + encode_utf8(b),
    decreases a.len(),
{
    if a.len() == 0 {
        assert(a + b == b);
        assert(encode_utf8(a) + encode_utf8(b) == encode_utf8(b));
    } else {
        assert((a + b).drop_first() == a.drop_first() + b);
        lemma_bytes_of_concat(a.drop_first(), b);
        assert(encode_utf8(a + b) == encode_utf8(a) + encode_utf8(b));
    }
}

proof fn lemma_decimal_digits(n: nat, width: nat)
    requires
        width > 0,
        n < vstd::arithmetic::power::pow(10, width),
    ensures
        is_ascii_chars(decimal(n)),
        decimal(n).len() <= width,
    decreases width,
{
    reveal(vstd::arithmetic::power::pow);
    if n >= 10 {
        assert(width > 1) by {
            reveal_with_fuel(vstd::arithmetic::power::pow, 3);
        }
        let rest = (width - 1) as nat;
        assert(n / 10 < vstd::arithmetic::power::pow(10, rest));
        lemma_decimal_digits(n / 10, rest);
    }
}

/// Every file name made from an accepted archive name fits the 255 bytes that
/// file systems allow, the longest of them included.
pub proof fn law_file_names_fit(
    name: Seq<char>,
    nanos: int,
    encryption: EncryptionType,
    process: u32,
)
    requires
        name_problem(name) is None,
        in_range(nanos),
    ensures
        ({
            let file = final_name_text(archive_name_text(name, stamp_text(nanos)), encryption);
            &&& encode_utf8(file).len() <= encode_utf8(part_name_text(file, process as nat)).len()
            &&& encode_utf8(part_name_text(file, process as nat)).len() <= 255
        }),
{
    lemma_extensions();
    lemma_stamp_characters(nanos);
    lemma_stamp_length(nanos);
    reveal_with_fuel(vstd::arithmetic::power::pow, 12);
    lemma_decimal_digits(process as nat, 10);
    reveal_strlit(".part.");
    let stamped = stamp_text(nanos);
    let archive = archive_name_text(name, stamped);
    let file = final_name_text(archive, encryption);
    lemma_bytes_of_concat(name, "-"@);
    lemma_bytes_of_concat(name + "-"@, stamped);
    lemma_bytes_of_concat(name + "-"@ + stamped, ".tgz"@);
    lemma_bytes_of_concat(archive, ".gpg"@);
    lemma_bytes_of_concat(file, ".part."@);
    lemma_bytes_of_concat(file + ".part."@, decimal(process as nat));
    is_ascii_chars_encode_utf8("-"@);
    is_ascii_chars_encode_utf8(stamped);
    is_ascii_chars_encode_utf8(".tgz"@);
    is_ascii_chars_encode_utf8(".gpg"@);
    is_ascii_chars_encode_utf8(".part."@);
    is_ascii_chars_encode_utf8(decimal(process as nat));
}

/// A name is accepted exactly if it has a character, holds neither `/` nor NUL,
/// and takes no more than 200 bytes; what is refused first is told.
pub proof fn law_names_are_accepted_exactly(name: Seq<char>)
    ensures
        name_problem(name) is None <==> {
            &&& name.len() > 0
            &&& forall|i: int| 0 <= i < name.len() ==> name[i] != '/' && name[i] != '\0'
            &&& encode_utf8(name).len() <= 200
        },
        name_problem(name) == Some(NameError::Empty) <==> name.len() == 0,
        name_problem(name) == Some(NameError::Forbidden) <==> name.contains('/') || name.contains(
            '\0',
        ),
{
    if name.contains('/') {
        let k = choose|k: int| 0 <= k < name.len() && name[k] == '/';
        assert(name[k] == '/');
    }
    if name.contains('\0') {
        let k = choose|k: int| 0 <= k < name.len() && name[k] == '\0';
        assert(name[k] == '\0');
    }
    assert forall|i: int| 0 <= i < name.len() && !name.contains('/') && !name.contains(
        '\0',
    ) implies name[i] != '/' && name[i] != '\0' by {
        assert(name.contains(name[i]));
    }
}

/// An archive is called by its name, a hyphen, its stamp and `.tgz`; encrypted, it
/// has `.gpg` behind that; and while a process is still copying it, `.part.` and
/// the number of that process.
pub proof fn law_files_are_called_by_name_and_stamp(name: Seq<char>, stamp: Seq<char>, process: nat)
    ensures
        ({
            let plain = name + seq!['-'] + stamp + seq!['.', 't', 'g', 'z'];
            let encrypted = plain + seq!['.', 'g', 'p', 'g'];
            let archive = archive_name_text(name, stamp);
            &&& archive == plain
            &&& final_name_text(archive, EncryptionType::Plaintext) == plain
            &&& final_name_text(archive, EncryptionType::Openpgp) == encrypted
            &&& part_name_text(plain, process) == plain + seq!['.', 'p', 'a', 'r', 't', '.']
                + decimal(process)
            &&& part_name_text(encrypted, process) == encrypted + seq![
                '.',
                'p',
                'a',
                'r',
                't',
                '.',
            ] + decimal(process)
        }),
{
    lemma_extensions();
    reveal_strlit(".part.");
    assert(".part."@ == seq!['.', 'p', 'a', 'r', 't', '.']);
}

/// A name that is too long is told with the number of its bytes, and a forbidden one
/// with the name itself, quoted.
pub proof fn law_refused_names_are_told(name: Seq<char>, bytes: usize)
    ensures
        encode_utf8(name).len() <= usize::MAX ==> (name_problem(name) matches Some(
            NameError::TooLong { bytes: told },
        ) ==> told == encode_utf8(name).len()),
        NameError::Forbidden.message_text(name) == "--name must not contain '/' or NUL: "@
            + quoted_text(name),
        ("--name is too long: "@ + decimal(bytes as nat)).is_prefix_of(
            NameError::TooLong { bytes }.message_text(name),
        ),
{
    let told = "--name is too long: "@ + decimal(bytes as nat);
    let message = NameError::TooLong { bytes }.message_text(name);
    assert(message.subrange(0, told.len() as int) == told);
}

} // verus!
