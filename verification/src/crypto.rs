//! Encryption of the finished archive with the system's `gpg`: which recipients
//! are accepted, and the steps of an encryption.

use vstd::prelude::*;
use vstd::utf8::{encode_utf8, is_ascii_chars};

use crate::failure::{in_context, tells, Failure};
use crate::path::{
    about, byte_strings, child, file_name_of, lemma_child, lemma_encoding_is_no_shorter,
    lemma_no_separator, lemma_shown, parent_of, renaming, renaming_text, shown, text_of, tidy_end,
    FilePath,
};
use crate::text::{
    chars_of, first_index, joined, law_joining_concatenates, law_splitting_cuts_at_every_separator,
    lemma_first_index, lemma_first_index_is_first, lemma_split_nonempty, lowercase, lowered,
    same_text, small_letters, split, split_on, starts_with, text_between, texts,
};
use crate::trace::{after, happened, lemma_happened, lemma_happened_lately, lemma_nothing_happened};

verus! {

pub open spec fn is_hex_digit(c: char) -> bool {
    '0' <= c <= '9' || 'A' <= c <= 'F' || 'a' <= c <= 'f'
}

/// Whether `text` is a full fingerprint: 40 hexadecimal digits.
pub open spec fn is_fingerprint(text: Seq<char>) -> bool {
    text.len() == 40 && forall|i: int| 0 <= i < 40 ==> is_hex_digit(#[trigger] text[i])
}

/// What is said of a recipient that is no fingerprint.
pub open spec fn not_a_fingerprint(recipient: Seq<char>) -> Seq<char> {
    "recipient '"@ + recipient
        + "' must be a full 40-hex-digit fingerprint (short keyids are rejected for collision safety); get one with `gpg --list-keys --fingerprint`"@
}

/// What is said of a recipient whose key is not at hand.
pub open spec fn unknown_key(recipient: Seq<char>) -> Seq<char> {
    "no public key "@ + recipient
        + " in the local gpg keyring; verify the fingerprint with `gpg --list-keys --fingerprint` and import the key first (gpg --import)"@
}

/// Accept only a full fingerprint: primary keys and subkeys alike, short key ids
/// never.
pub fn validate_recipient(recipient: &str) -> (r: Result<(), Failure>)
    ensures
        match r {
            Ok(_) => is_fingerprint(recipient@),
            Err(failure) => !is_fingerprint(recipient@) && failure@ == seq![
                not_a_fingerprint(recipient@),
            ],
        },
{
    let chars = chars_of(recipient);
    let mut fine = chars.len() == 40;
    for i in 0..chars.len()
        invariant
            fine ==> chars@.len() == 40 && forall|j: int|
                0 <= j < i ==> is_hex_digit(#[trigger] chars@[j]),
            !fine ==> chars@.len() != 40 || exists|j: int|
                0 <= j < chars@.len() && !is_hex_digit(#[trigger] chars@[j]),
    {
        let c: char = chars[i];
        if !(('0' <= c && c <= '9') || ('A' <= c && c <= 'F') || ('a' <= c && c <= 'f')) {
            assert(!is_hex_digit(chars@[i as int]));
            fine = false;
        }
    }
    if fine {
        return Ok(());
    }
    let mut message = "recipient '".to_string();
    message.append(recipient);
    message.append(
        "' must be a full 40-hex-digit fingerprint (short keyids are rejected for collision safety); get one with `gpg --list-keys --fingerprint`",
    );
    Err(Failure::new(message))
}

/// A line without the carriage return that belongs to its line ending.
pub open spec fn without_return(line: Seq<char>) -> Seq<char> {
    if line.len() > 0 && line.last() == '\r' {
        line.drop_last()
    } else {
        line
    }
}

/// The lines of a text: `\n` or `\r\n` ends a line, and the last line need not
/// be ended.
pub open spec fn lines_of(text: Seq<char>) -> Seq<Seq<char>> {
    let pieces = split_on(text, '\n');
    let ended = pieces.drop_last().map_values(|line: Seq<char>| without_return(line));
    if pieces.last().len() == 0 {
        ended
    } else {
        ended.push(pieces.last())
    }
}

/// The `index`-th field of a line of a listing, fields being parted by colons;
/// empty where there are fewer.
pub open spec fn field_of(line: Seq<char>, index: int) -> Seq<char> {
    let fields = split_on(line, ':');
    if 0 <= index < fields.len() {
        fields[index]
    } else {
        Seq::empty()
    }
}

/// Whether a line of a listing names the key with the fingerprint `print`, in
/// small letters.
pub open spec fn line_names(line: Seq<char>, print: Seq<char>) -> bool {
    "fpr:"@.is_prefix_of(line) && print.len() > 0 && lowered(field_of(line, 9)) == print
}

/// Whether the listing `text` names the key with the fingerprint `print`, in
/// small letters.
pub open spec fn listing_names(text: Seq<char>, print: Seq<char>) -> bool {
    exists|i: int|
        0 <= i < lines_of(text).len() && line_names(#[trigger] lines_of(text)[i], print)
}

/// The lines of `text`.
pub fn lines(text: &str) -> (r: Vec<String>)
    ensures
        texts(r@) == lines_of(text@),
{
    let pieces = split(text, '\n');
    let ghost all = split_on(text@, '\n');
    proof {
        crate::text::lemma_split_nonempty(text@, '\n');
    }
    assert(pieces@.len() == all.len());
    let mut out: Vec<String> = Vec::new();
    let last: usize = pieces.len() - 1;
    let ghost ended = all.drop_last().map_values(|line: Seq<char>| without_return(line));
    for i in 0..last
        invariant
            texts(pieces@) == all,
            last + 1 == pieces@.len(),
            ended == all.drop_last().map_values(|line: Seq<char>| without_return(line)),
            texts(out@) == ended.take(i as int),
    {
        let ghost before = texts(out@);
        let chars = chars_of(pieces[i].as_str());
        let piece = if chars.len() > 0 && chars[chars.len() - 1] == '\r' {
            text_between(&chars, 0, chars.len() - 1)
        } else {
            pieces[i].clone()
        };
        assert(all[i as int] == pieces@[i as int]@);
        assert(piece@ == without_return(all[i as int]));
        out.push(piece);
        assert(texts(out@) == before.push(piece@));
        assert(ended.take(i + 1) == ended.take(i as int).push(ended[i as int]));
    }
    assert(ended.take(last as int) == ended);
    assert(all.last() == pieces@[last as int]@);
    if !pieces[last].as_str().is_empty() {
        let piece = pieces[last].clone();
        let ghost before = texts(out@);
        out.push(piece);
        assert(texts(out@) == before.push(piece@));
    }
    out
}

/// What became of `gpg --list-keys --with-colons`.
#[derive(Debug)]
pub enum Listing {
    /// It could not be started.
    NotRun(Failure),
    /// It ran to its end.
    Ran { success: bool, stdout: Vec<u8>, stderr: Vec<u8> },
}

/// What a listing yields: its text, or why there is none.
pub open spec fn listing_text(listing: Listing) -> Result<Seq<char>, Seq<Seq<char>>> {
    match listing {
        Listing::NotRun(cause) => Err(
            in_context("run `gpg` (is GnuPG installed and in PATH?)"@, cause@),
        ),
        Listing::Ran { success, stdout, stderr } => if success {
            Ok(shown(stdout@))
        } else {
            Err(seq!["gpg --list-keys failed: "@ + shown(stderr@)])
        },
    }
}

/// The fingerprints, in small letters, of every key that a listing names:
/// primary keys and subkeys alike.
pub fn list_public_keys(listing: &Listing) -> (r: Result<Vec<String>, Failure>)
    ensures
        match r {
            Ok(known) => listing_text(*listing) is Ok && forall|print: Seq<char>|
                texts(known@).contains(print) <==> #[trigger] listing_names(
                    listing_text(*listing)->Ok_0,
                    print,
                ),
            Err(failure) => listing_text(*listing) == Err::<Seq<char>, Seq<Seq<char>>>(failure@),
        },
{
    match listing {
        Listing::NotRun(cause) => Err(
            cause.clone().context("run `gpg` (is GnuPG installed and in PATH?)".to_string()),
        ),
        Listing::Ran { success, stdout, stderr } => {
            if !*success {
                let mut message = "gpg --list-keys failed: ".to_string();
                message.append(text_of(stderr).as_str());
                return Err(Failure::new(message));
            }
            let text = text_of(stdout);
            Ok(fingerprints(text.as_str()))
        },
    }
}

/// The fingerprints, in small letters, that the listing `text` names.
pub fn fingerprints(text: &str) -> (r: Vec<String>)
    ensures
        forall|print: Seq<char>|
            texts(r@).contains(print) <==> #[trigger] listing_names(text@, print),
{
    let list = lines(text);
    let ghost all = lines_of(text@);
    let mut known: Vec<String> = Vec::new();
    for i in 0..list.len()
        invariant
            texts(list@) == all,
            all == lines_of(text@),
            forall|print: Seq<char>| #[trigger]
                texts(known@).contains(print) <==> exists|j: int|
                    0 <= j < i && line_names(#[trigger] all[j], print),
    {
        let line = list[i].as_str();
        let ghost before = texts(known@);
        assert(all[i as int] == line@);
        let ghost found = lowered(field_of(line@, 9));
        if starts_with(line, "fpr:") {
            let fields = split(line, ':');
            let field = if fields.len() > 9 {
                assert(texts(fields@)[9] == fields@[9]@);
                fields[9].clone()
            } else {
                let empty = String::new();
                assert(empty@ == Seq::<char>::empty());
                empty
            };
            assert(field@ == field_of(line@, 9));
            let print = lowercase(field.as_str());
            if !print.as_str().is_empty() {
                known.push(print);
                assert(texts(known@) == before.push(found));
            } else {
                assert(found.len() == 0);
            }
        }
        assert forall|print: Seq<char>| #[trigger] texts(known@).contains(print) <==> exists|
            j: int,
        | 0 <= j < i + 1 && line_names(#[trigger] all[j], print) by {
            let named = line_names(all[i as int], print);
            assert(texts(known@).contains(print) <==> before.contains(print) || named) by {
                if texts(known@) == before.push(found) {
                    assert(before.push(found).last() == found);
                    assert(before.push(found).contains(found)) by {
                        assert(before.push(found)[before.len() as int] == found);
                    }
                    if before.contains(print) {
                        let k = choose|k: int| 0 <= k < before.len() && before[k] == print;
                        assert(before.push(found)[k] == print);
                    }
                }
            }
        }
    }
    known
}

/// What is wrong with the recipients themselves, if anything: the first that is
/// no fingerprint is named.
pub open spec fn format_problem(recipients: Seq<Seq<char>>) -> Option<Seq<Seq<char>>> {
    let bad = first_index(recipients, |r: Seq<char>| !is_fingerprint(r));
    if bad < recipients.len() {
        Some(seq![not_a_fingerprint(recipients[bad])])
    } else {
        None
    }
}

/// What is wrong with the recipients, given what the keyring holds: their
/// format comes first, and without recipients no keyring is needed. Letter case
/// does not matter.
pub open spec fn recipients_problem(recipients: Seq<Seq<char>>, listing: Listing) -> Option<
    Seq<Seq<char>>,
> {
    if format_problem(recipients) is Some {
        format_problem(recipients)
    } else if recipients.len() == 0 {
        None
    } else {
        match listing_text(listing) {
            Err(problem) => Some(problem),
            Ok(text) => {
                let unknown = first_index(
                    recipients,
                    |r: Seq<char>| !listing_names(text, lowered(r)),
                );
                if unknown < recipients.len() {
                    Some(seq![unknown_key(recipients[unknown])])
                } else {
                    None
                }
            },
        }
    }
}

/// Check the recipients' format, which needs nothing but them, and say whether
/// the keyring has to be consulted.
pub fn needs_keyring(recipients: &Vec<String>) -> (r: Result<bool, Failure>)
    ensures
        match r {
            Ok(needed) => format_problem(texts(recipients@)) is None && needed == (recipients@.len()
                > 0),
            Err(failure) => format_problem(texts(recipients@)) == Some(failure@),
        },
{
    let ghost list = texts(recipients@);
    let ghost bad = |r: Seq<char>| !is_fingerprint(r);
    for i in 0..recipients.len()
        invariant
            list == texts(recipients@),
            bad == (|r: Seq<char>| !is_fingerprint(r)),
            forall|j: int| 0 <= j < i ==> !bad(#[trigger] list[j]),
    {
        assert(list[i as int] == recipients@[i as int]@);
        match validate_recipient(recipients[i].as_str()) {
            Ok(_) => {},
            Err(failure) => {
                proof {
                    lemma_first_index(list, bad, i as int);
                }
                return Err(failure);
            },
        }
    }
    proof {
        lemma_first_index(list, bad, list.len() as int);
    }
    Ok(recipients.len() > 0)
}

/// Whether a list holds a text.
fn holds(list: &Vec<String>, text: &str) -> (r: bool)
    ensures
        r == texts(list@).contains(text@),
{
    for i in 0..list.len()
        invariant
            forall|j: int| 0 <= j < i ==> texts(list@)[j] != text@,
    {
        assert(texts(list@)[i as int] == list@[i as int]@);
        if same_text(list[i].as_str(), text) {
            return true;
        }
    }
    false
}

/// Check the recipients against what the keyring holds. Their format is checked
/// first, whatever became of the listing.
pub fn check_recipients(recipients: &Vec<String>, listing: &Listing) -> (r: Result<(), Failure>)
    ensures
        match r {
            Ok(_) => recipients_problem(texts(recipients@), *listing) is None,
            Err(failure) => recipients_problem(texts(recipients@), *listing) == Some(failure@),
        },
{
    match needs_keyring(recipients) {
        Err(failure) => {
            return Err(failure);
        },
        Ok(needed) => if !needed {
            return Ok(());
        },
    }
    let known = match list_public_keys(listing) {
        Err(failure) => {
            return Err(failure);
        },
        Ok(known) => known,
    };
    let ghost list = texts(recipients@);
    let ghost text = listing_text(*listing)->Ok_0;
    let ghost unknown = |r: Seq<char>| !listing_names(text, lowered(r));
    for i in 0..recipients.len()
        invariant
            list == texts(recipients@),
            listing_text(*listing) == Ok::<Seq<char>, Seq<Seq<char>>>(text),
            format_problem(list) is None,
            unknown == (|r: Seq<char>| !listing_names(text, lowered(r))),
            forall|print: Seq<char>|
                texts(known@).contains(print) <==> #[trigger] listing_names(text, print),
            forall|j: int| 0 <= j < i ==> !unknown(#[trigger] list[j]),
    {
        assert(list[i as int] == recipients@[i as int]@);
        let print = lowercase(recipients[i].as_str());
        if !holds(&known, print.as_str()) {
            assert(unknown(list[i as int]));
            proof {
                lemma_first_index(list, unknown, i as int);
            }
            let mut message = "no public key ".to_string();
            message.append(recipients[i].as_str());
            message.append(
                " in the local gpg keyring; verify the fingerprint with `gpg --list-keys --fingerprint` and import the key first (gpg --import)",
            );
            return Err(Failure::new(message));
        }
    }
    proof {
        lemma_first_index(list, unknown, list.len() as int);
    }
    Ok(())
}

proof fn lemma_fingerprint_is_ascii(text: Seq<char>)
    requires
        is_fingerprint(text),
    ensures
        is_ascii_chars(text),
{
    assert forall|i: int| 0 <= i < text.len() implies '\0' <= #[trigger] text[i] <= '\u{7f}' by {
        assert(is_hex_digit(text[i]));
    }
}

/// A key that the keyring holds is accepted however its fingerprint is written:
/// capital and small letters are the same.
pub proof fn law_letter_case_is_ignored(one: Seq<char>, other: Seq<char>, listing: Listing)
    requires
        is_fingerprint(one),
        is_fingerprint(other),
        small_letters(one) == small_letters(other),
    ensures
        recipients_problem(seq![one], listing) is None <==> recipients_problem(
            seq![other],
            listing,
        ) is None,
{
    lemma_fingerprint_is_ascii(one);
    lemma_fingerprint_is_ascii(other);
    let bad = |r: Seq<char>| !is_fingerprint(r);
    lemma_first_index(seq![one], bad, 1);
    lemma_first_index(seq![other], bad, 1);
    match listing_text(listing) {
        Ok(text) => {
            let unknown = |r: Seq<char>| !listing_names(text, lowered(r));
            let at: int = if unknown(one) {
                0
            } else {
                1
            };
            lemma_first_index(seq![one], unknown, at);
            lemma_first_index(seq![other], unknown, at);
        },
        Err(_) => {},
    }
}

/// Recipients are accepted exactly if each is a fingerprint that the keyring
/// names; one that fails fails them all.
pub proof fn law_every_recipient_counts(
    recipients: Seq<Seq<char>>,
    text: Seq<char>,
    listing: Listing,
)
    requires
        listing_text(listing) == Ok::<Seq<char>, Seq<Seq<char>>>(text),
    ensures
        recipients_problem(recipients, listing) is None <==> forall|i: int|
            0 <= i < recipients.len() ==> is_fingerprint(#[trigger] recipients[i]) && listing_names(
                text,
                small_letters(recipients[i]),
            ),
{
    let bad = |r: Seq<char>| !is_fingerprint(r);
    let unknown = |r: Seq<char>| !listing_names(text, lowered(r));
    lemma_first_index_is_first(recipients, bad);
    lemma_first_index_is_first(recipients, unknown);
    assert forall|i: int| 0 <= i < recipients.len() && is_fingerprint(
        #[trigger] recipients[i],
    ) implies lowered(recipients[i]) == small_letters(recipients[i]) by {
        lemma_fingerprint_is_ascii(recipients[i]);
    }
    let b = first_index(recipients, bad);
    let u = first_index(recipients, unknown);
    if b < recipients.len() {
        assert(bad(recipients[b]));
    } else if u < recipients.len() {
        assert(unknown(recipients[u]));
        assert(!bad(recipients[u]));
    } else {
        assert forall|i: int| 0 <= i < recipients.len() implies is_fingerprint(
            #[trigger] recipients[i],
        ) && listing_names(text, small_letters(recipients[i])) by {
            assert(!bad(recipients[i]));
            assert(!unknown(recipients[i]));
        }
    }
}

/// What the encryption waits for.
#[derive(Debug)]
pub enum EncryptStage {
    /// Run `gpg` with the arguments that `gpg_args` gives.
    Gpg,
    /// Give the complete ciphertext its name.
    Rename,
    /// Remove the plaintext.
    RemovePlain,
    /// Remove the incomplete ciphertext.
    DropPart(Failure),
    /// Remove the plaintext that could not be encrypted.
    DropPlain(Failure),
    /// The encryption is over.
    Done(Result<FilePath, Failure>),
}

/// What the encryption waits for, in mathematical terms.
pub ghost enum EncryptWait {
    Gpg,
    Rename,
    RemovePlain,
    DropPart(Seq<Seq<char>>),
    DropPlain(Seq<Seq<char>>),
    Done(Result<Seq<u8>, Seq<Seq<char>>>),
}

impl View for EncryptStage {
    type V = EncryptWait;

    open spec fn view(&self) -> EncryptWait {
        match *self {
            EncryptStage::Gpg => EncryptWait::Gpg,
            EncryptStage::Rename => EncryptWait::Rename,
            EncryptStage::RemovePlain => EncryptWait::RemovePlain,
            EncryptStage::DropPart(failure) => EncryptWait::DropPart(failure@),
            EncryptStage::DropPlain(failure) => EncryptWait::DropPlain(failure@),
            EncryptStage::Done(Ok(path)) => EncryptWait::Done(Ok(path@)),
            EncryptStage::Done(Err(failure)) => EncryptWait::Done(Err(failure@)),
        }
    }
}

/// A reply to what the encryption waited for.
#[derive(Debug)]
pub enum EncryptReply {
    /// `gpg` could not be started.
    NotRun(Failure),
    /// `gpg` ended, with this exit status.
    Exited { success: bool, status: String },
    /// What was asked was done, or failed.
    Did(Result<(), Failure>),
    /// The file was removed, as far as it could be.
    Dropped,
}

/// The encryption of one archive. The ciphertext is written under a `.part` name
/// first.
#[derive(Debug)]
pub struct Encrypt {
    pub plain: FilePath,
    pub recipients: Vec<String>,
    pub part: FilePath,
    pub complete: FilePath,
    pub stage: EncryptStage,
}

/// The encryption of one archive, in mathematical terms.
pub ghost struct EncryptState {
    pub plain: Seq<u8>,
    pub recipients: Seq<Seq<char>>,
    pub part: Seq<u8>,
    pub complete: Seq<u8>,
    pub stage: EncryptWait,
}

impl View for Encrypt {
    type V = EncryptState;

    open spec fn view(&self) -> EncryptState {
        EncryptState {
            plain: self.plain@,
            recipients: texts(self.recipients@),
            part: self.part@,
            complete: self.complete@,
            stage: self.stage@,
        }
    }
}

/// The options that name the recipients.
pub open spec fn recipient_args(recipients: Seq<Seq<char>>) -> Seq<Seq<u8>>
    decreases recipients.len(),
{
    if recipients.len() == 0 {
        Seq::empty()
    } else {
        recipient_args(recipients.drop_last()).push(encode_utf8("--recipient"@)).push(
            encode_utf8(recipients.last()),
        )
    }
}

impl EncryptState {
    /// The arguments of `gpg`. The input is compressed already, so `gpg` is told
    /// not to compress it again.
    pub open spec fn gpg_args(self) -> Seq<Seq<u8>> {
        seq![
            encode_utf8("--batch"@),
            encode_utf8("--no-tty"@),
            encode_utf8("--quiet"@),
            encode_utf8("--compress-algo"@),
            encode_utf8("none"@),
            encode_utf8("--encrypt"@),
        ] + recipient_args(self.recipients) + seq![
            encode_utf8("--output"@),
            self.part,
            self.plain,
        ]
    }

    pub open spec fn at(self, stage: EncryptWait) -> EncryptState {
        EncryptState { stage, ..self }
    }

    /// The encryption after the reply to what it waited for. Any other reply
    /// leaves it waiting.
    pub open spec fn next(self, reply: EncryptReply) -> EncryptState {
        match (self.stage, reply) {
            (EncryptWait::Gpg, EncryptReply::NotRun(cause)) => self.at(
                EncryptWait::Done(Err(in_context("run `gpg --encrypt`"@, cause@))),
            ),
            (EncryptWait::Gpg, EncryptReply::Exited { success, status }) => if success {
                self.at(EncryptWait::Rename)
            } else {
                self.at(EncryptWait::DropPart(seq!["gpg --encrypt exited with "@ + status@]))
            },
            (EncryptWait::Rename, EncryptReply::Did(result)) => match result {
                Ok(_) => self.at(EncryptWait::RemovePlain),
                Err(cause) => self.at(
                    EncryptWait::Done(
                        Err(in_context(renaming(self.part, self.complete), cause@)),
                    ),
                ),
            },
            (EncryptWait::RemovePlain, EncryptReply::Did(result)) => match result {
                Ok(_) => self.at(EncryptWait::Done(Ok(self.complete))),
                Err(cause) => self.at(
                    EncryptWait::Done(
                        Err(in_context("remove plaintext "@ + shown(self.plain), cause@)),
                    ),
                ),
            },
            (EncryptWait::DropPart(chain), EncryptReply::Dropped) => self.at(
                EncryptWait::DropPlain(chain),
            ),
            (EncryptWait::DropPlain(chain), EncryptReply::Dropped) => self.at(
                EncryptWait::Done(Err(chain)),
            ),
            _ => self,
        }
    }
}

/// The encryption of `plain` at its beginning: `<plain>.gpg` is made by way of
/// `<plain>.gpg.part`. A path that names no file cannot be encrypted.
pub open spec fn encrypt_start(plain: Seq<u8>, recipients: Seq<Seq<char>>) -> EncryptState {
    let blank = EncryptState {
        plain,
        recipients,
        part: Seq::empty(),
        complete: Seq::empty(),
        stage: EncryptWait::Gpg,
    };
    match (parent_of(plain), file_name_of(plain)) {
        (None, _) => blank.at(EncryptWait::Done(Err(seq!["archive has no parent directory"@]))),
        (Some(_), None) => blank.at(EncryptWait::Done(Err(seq!["archive has no file name"@]))),
        (Some(dir), Some(name)) => EncryptState {
            part: child(dir, encode_utf8(shown(name) + ".gpg.part"@)),
            complete: child(dir, encode_utf8(shown(name) + ".gpg"@)),
            ..blank
        },
    }
}

/// Begin to encrypt `plain` for `recipients`.
pub fn encrypt(plain: FilePath, recipients: Vec<String>) -> (r: Encrypt)
    ensures
        r@ == encrypt_start(plain@, texts(recipients@)),
{
    let problem = match plain.parent() {
        None => "archive has no parent directory",
        Some(dir) => match plain.file_name() {
            None => "archive has no file name",
            Some(name) => {
                let mut complete = text_of(&name);
                complete.append(".gpg");
                let mut part = text_of(&name);
                part.append(".gpg.part");
                return Encrypt {
                    plain,
                    recipients,
                    part: dir.file(part.as_str()),
                    complete: dir.file(complete.as_str()),
                    stage: EncryptStage::Gpg,
                };
            },
        },
    };
    let nowhere = FilePath { bytes: Vec::new() };
    assert(nowhere@ == Seq::<u8>::empty());
    let nothing = FilePath { bytes: Vec::new() };
    assert(nothing@ == Seq::<u8>::empty());
    Encrypt {
        plain,
        recipients,
        part: nowhere,
        complete: nothing,
        stage: EncryptStage::Done(Err(Failure::say(problem))),
    }
}

impl Encrypt {
    /// The arguments of `gpg`.
    pub fn gpg_args(&self) -> (r: Vec<Vec<u8>>)
        ensures
            byte_strings(r@) == self@.gpg_args(),
    {
        let mut args: Vec<Vec<u8>> = Vec::new();
        args.push("--batch".as_bytes_vec());
        args.push("--no-tty".as_bytes_vec());
        args.push("--quiet".as_bytes_vec());
        args.push("--compress-algo".as_bytes_vec());
        args.push("none".as_bytes_vec());
        args.push("--encrypt".as_bytes_vec());
        let ghost fixed = byte_strings(args@);
        assert(fixed == seq![
            encode_utf8("--batch"@),
            encode_utf8("--no-tty"@),
            encode_utf8("--quiet"@),
            encode_utf8("--compress-algo"@),
            encode_utf8("none"@),
            encode_utf8("--encrypt"@),
        ]);
        let ghost list = texts(self.recipients@);
        assert(list.take(0) == Seq::<Seq<char>>::empty());
        assert(byte_strings(args@) == fixed + recipient_args(list.take(0)));
        for i in 0..self.recipients.len()
            invariant
                list == texts(self.recipients@),
                byte_strings(args@) == fixed + recipient_args(list.take(i as int)),
        {
            let ghost before = byte_strings(args@);
            assert(list.take(i + 1).drop_last() == list.take(i as int));
            args.push("--recipient".as_bytes_vec());
            args.push(self.recipients[i].as_str().as_bytes_vec());
            assert(byte_strings(args@) == before.push(encode_utf8("--recipient"@)).push(
                encode_utf8(list[i as int]),
            ));
            assert(byte_strings(args@) == fixed + recipient_args(list.take(i + 1)));
        }
        assert(list.take(list.len() as int) == list);
        let ghost before = byte_strings(args@);
        args.push("--output".as_bytes_vec());
        args.push(self.part.bytes.clone());
        args.push(self.plain.bytes.clone());
        assert(byte_strings(args@) == before + seq![
            encode_utf8("--output"@),
            self.part@,
            self.plain@,
        ]);
        args
    }

    /// Take the reply to what the encryption waited for.
    pub fn resume(self, reply: EncryptReply) -> (r: Encrypt)
        ensures
            r@ == self@.next(reply),
    {
        let Encrypt { plain, recipients, part, complete, stage } = self;
        let stage = match (stage, reply) {
            (EncryptStage::Gpg, EncryptReply::NotRun(cause)) => EncryptStage::Done(
                Err(cause.context("run `gpg --encrypt`".to_string())),
            ),
            (EncryptStage::Gpg, EncryptReply::Exited { success, status }) => if success {
                EncryptStage::Rename
            } else {
                let mut message = "gpg --encrypt exited with ".to_string();
                message.append(status.as_str());
                EncryptStage::DropPart(Failure::new(message))
            },
            (EncryptStage::Rename, EncryptReply::Did(result)) => match result {
                Ok(_) => EncryptStage::RemovePlain,
                Err(cause) => EncryptStage::Done(
                    Err(cause.context(renaming_text(&part, &complete))),
                ),
            },
            (EncryptStage::RemovePlain, EncryptReply::Did(result)) => match result {
                Ok(_) => EncryptStage::Done(Ok(complete.clone())),
                Err(cause) => EncryptStage::Done(
                    Err(cause.context(about("remove plaintext ", &plain))),
                ),
            },
            (EncryptStage::DropPart(failure), EncryptReply::Dropped) => EncryptStage::DropPlain(
                failure,
            ),
            (EncryptStage::DropPlain(failure), EncryptReply::Dropped) => EncryptStage::Done(
                Err(failure),
            ),
            (stage, _) => stage,
        };
        Encrypt { plain, recipients, part, complete, stage }
    }
}

/// The encryption from `start` after `replies`.
pub open spec fn encrypt_after(start: EncryptState, replies: Seq<EncryptReply>) -> EncryptState {
    after(start, |state: EncryptState, reply: EncryptReply| state.next(reply), replies)
}

/// Whether it happened in the course of `replies`.
pub open spec fn encrypt_happened(
    start: EncryptState,
    replies: Seq<EncryptReply>,
    what: spec_fn(EncryptState, EncryptReply) -> bool,
) -> bool {
    happened(start, |state: EncryptState, reply: EncryptReply| state.next(reply), replies, what)
}

pub open spec fn gpg_succeeded() -> spec_fn(EncryptState, EncryptReply) -> bool {
    |state: EncryptState, reply: EncryptReply|
        state.stage is Gpg && reply is Exited && reply->success
}

pub open spec fn gpg_exited_badly() -> spec_fn(EncryptState, EncryptReply) -> bool {
    |state: EncryptState, reply: EncryptReply|
        state.stage is Gpg && reply is Exited && !reply->success
}

pub open spec fn ciphertext_renamed() -> spec_fn(EncryptState, EncryptReply) -> bool {
    |state: EncryptState, reply: EncryptReply|
        state.stage is Rename && reply matches EncryptReply::Did(Ok(_))
}

pub open spec fn plaintext_removed() -> spec_fn(EncryptState, EncryptReply) -> bool {
    |state: EncryptState, reply: EncryptReply|
        state.stage is RemovePlain && reply matches EncryptReply::Did(Ok(_))
}

pub open spec fn part_dropped() -> spec_fn(EncryptState, EncryptReply) -> bool {
    |state: EncryptState, reply: EncryptReply|
        state.stage is DropPart && reply is Dropped
}

pub open spec fn plaintext_dropped() -> spec_fn(EncryptState, EncryptReply) -> bool {
    |state: EncryptState, reply: EncryptReply|
        state.stage is DropPlain && reply is Dropped
}

/// Whether the encryption has ended well.
pub open spec fn encrypted(stage: EncryptWait) -> bool {
    stage matches EncryptWait::Done(Ok(_))
}

proof fn lemma_encrypt_history(start: EncryptState, replies: Seq<EncryptReply>)
    requires
        start.stage is Gpg,
    ensures
        ({
            let state = encrypt_after(start, replies);
            let stage = state.stage;
            &&& state == start.at(stage)
            &&& stage is Rename || stage is RemovePlain || encrypted(stage) ==> encrypt_happened(
                start,
                replies,
                gpg_succeeded(),
            )
            &&& stage is RemovePlain || encrypted(stage) ==> encrypt_happened(
                start,
                replies,
                ciphertext_renamed(),
            )
            &&& encrypted(stage) ==> encrypt_happened(start, replies, plaintext_removed())
                && stage->Done_0->Ok_0 == start.complete
            &&& stage is DropPlain ==> encrypt_happened(start, replies, part_dropped())
            &&& encrypt_happened(start, replies, gpg_exited_badly()) ==> {
                ||| stage is DropPart
                ||| stage is DropPlain
                ||| stage matches EncryptWait::Done(Err(_)) && encrypt_happened(
                    start,
                    replies,
                    part_dropped(),
                ) && encrypt_happened(start, replies, plaintext_dropped())
            }
        }),
    decreases replies.len(),
{
    let next = |state: EncryptState, reply: EncryptReply| state.next(reply);
    if replies.len() > 0 {
        let before = encrypt_after(start, replies.drop_last());
        let reply = replies.last();
        lemma_encrypt_history(start, replies.drop_last());
        lemma_happened(start, next, replies, gpg_succeeded());
        lemma_happened(start, next, replies, ciphertext_renamed());
        lemma_happened(start, next, replies, plaintext_removed());
        lemma_happened(start, next, replies, part_dropped());
        lemma_happened(start, next, replies, plaintext_dropped());
        lemma_happened_lately(start, next, replies, gpg_exited_badly());
    } else {
        lemma_nothing_happened(start, next, replies, gpg_exited_badly());
    }
}

/// An encryption that succeeded yields the ciphertext under its own name, made
/// by a `gpg` that succeeded, and has removed the plaintext.
pub proof fn law_success_leaves_only_ciphertext(start: EncryptState, replies: Seq<EncryptReply>)
    requires
        start.stage is Gpg,
        encrypted(encrypt_after(start, replies).stage),
    ensures
        encrypt_after(start, replies).stage->Done_0->Ok_0 == start.complete,
        encrypt_happened(start, replies, gpg_succeeded()),
        encrypt_happened(start, replies, ciphertext_renamed()),
        encrypt_happened(start, replies, plaintext_removed()),
{
    lemma_encrypt_history(start, replies);
}

/// Once `gpg` has exited with a failure, the encryption cannot succeed; and when
/// it is over, both the incomplete ciphertext and the plaintext have been
/// removed.
pub proof fn law_failed_gpg_leaves_no_plaintext(start: EncryptState, replies: Seq<EncryptReply>)
    requires
        start.stage is Gpg,
        encrypt_happened(start, replies, gpg_exited_badly()),
        encrypt_after(start, replies).stage is Done,
    ensures
        encrypt_after(start, replies).stage->Done_0 is Err,
        encrypt_happened(start, replies, part_dropped()),
        encrypt_happened(start, replies, plaintext_dropped()),
{
    lemma_encrypt_history(start, replies);
}

/// A recipient is a full fingerprint exactly if it has 40 characters, each of them
/// a digit or one of the letters `a` to `f`, capital or small.
pub proof fn law_fingerprints_are_forty_hex_digits(text: Seq<char>)
    ensures
        is_fingerprint(text) <==> text.len() == 40 && forall|i: int|
            0 <= i < 40 ==> {
                let c = #[trigger] text[i];
                '0' <= c <= '9' || 'a' <= c <= 'f' || 'A' <= c <= 'F'
            },
{
    if text.len() == 40 && forall|i: int|
        0 <= i < 40 ==> {
            let c = #[trigger] text[i];
            '0' <= c <= '9' || 'a' <= c <= 'f' || 'A' <= c <= 'F'
        } {
        assert forall|i: int| 0 <= i < 40 implies is_hex_digit(#[trigger] text[i]) by {
            let c = text[i];
            assert('0' <= c <= '9' || 'a' <= c <= 'f' || 'A' <= c <= 'F');
        }
    }
    if is_fingerprint(text) {
        assert forall|i: int| 0 <= i < 40 implies {
            let c = #[trigger] text[i];
            '0' <= c <= '9' || 'a' <= c <= 'f' || 'A' <= c <= 'F'
        } by {
            assert(is_hex_digit(text[i]));
        }
    }
}

/// The lines of a text are those of its two parts, wherever it is cut behind the
/// end of a line.
proof fn lemma_lines_add_up(before: Seq<char>, after: Seq<char>)
    requires
        before.len() == 0 || before.last() == '\n',
    ensures
        lines_of(before + after) == lines_of(before) + lines_of(after),
{
    let strip = |line: Seq<char>| without_return(line);
    lemma_split_nonempty(after, '\n');
    if before.len() == 0 {
        assert(before + after == after);
        assert(split_on(before, '\n') == seq![Seq::<char>::empty()]);
        assert(lines_of(before) == Seq::<Seq<char>>::empty());
        assert(lines_of(before) + lines_of(after) == lines_of(after));
    } else {
        let front = before.drop_last();
        let empty = Seq::<char>::empty();
        assert(before == front.push('\n') + empty);
        assert(before + after == front.push('\n') + after);
        law_splitting_cuts_at_every_separator(front, empty, '\n');
        law_splitting_cuts_at_every_separator(front, after, '\n');
        let a = split_on(front, '\n');
        let b = split_on(after, '\n');
        assert(split_on(before, '\n') == a + seq![empty]);
        assert((a + seq![empty]).drop_last() == a);
        assert((a + seq![empty]).last() == empty);
        assert(lines_of(before) == a.map_values(strip));
        assert((a + b).drop_last() == a + b.drop_last());
        assert((a + b.drop_last()).map_values(strip) == a.map_values(strip)
            + b.drop_last().map_values(strip));
        assert((a + b).last() == b.last());
        assert(lines_of(before + after) == lines_of(before) + lines_of(after));
    }
}

/// Listings add up: what two listings know together, one behind the other, is what
/// either of them knows. The empty one knows nothing.
pub proof fn law_listings_add_up(before: Seq<char>, after: Seq<char>, print: Seq<char>)
    requires
        before.len() == 0 || before.last() == '\n',
    ensures
        listing_names(before + after, print) <==> listing_names(before, print) || listing_names(
            after,
            print,
        ),
        !listing_names(Seq::empty(), print),
{
    let a = lines_of(before);
    let b = lines_of(after);
    let whole = lines_of(before + after);
    lemma_lines_add_up(before, after);
    lemma_lines_add_up(Seq::empty(), Seq::empty());
    if listing_names(before + after, print) {
        let i = choose|i: int| 0 <= i < whole.len() && line_names(#[trigger] whole[i], print);
        if i < a.len() {
            assert(line_names(a[i], print));
        } else {
            assert(line_names(b[i - a.len()], print));
        }
    }
    if listing_names(before, print) {
        let i = choose|i: int| 0 <= i < a.len() && line_names(#[trigger] a[i], print);
        assert(line_names(whole[i], print));
    }
    if listing_names(after, print) {
        let i = choose|i: int| 0 <= i < b.len() && line_names(#[trigger] b[i], print);
        assert(line_names(whole[a.len() + i], print));
    }
    let empty = Seq::<char>::empty();
    assert(empty + empty == empty);
    assert(lines_of(empty).len() == lines_of(empty).len() + lines_of(empty).len());
}

/// Whether no field holds a colon or a part of a line ending.
pub open spec fn are_fields(fields: Seq<Seq<char>>) -> bool {
    forall|i: int|
        0 <= i < fields.len() ==> {
            let field = #[trigger] fields[i];
            !field.contains(':') && !field.contains('\n') && !field.contains('\r')
        }
}

proof fn lemma_fields_split(fields: Seq<Seq<char>>)
    requires
        fields.len() > 0,
        are_fields(fields),
    ensures
        split_on(joined(fields, seq![':']), ':') == fields,
        !joined(fields, seq![':']).contains('\n'),
        !joined(fields, seq![':']).contains('\r'),
    decreases fields.len(),
{
    let last = fields[fields.len() - 1];
    assert(!last.contains(':') && !last.contains('\n') && !last.contains('\r'));
    let line = joined(fields, seq![':']);
    law_splitting_cuts_at_every_separator(last, Seq::empty(), ':');
    if fields.len() == 1 {
        assert(fields == seq![last]);
    } else {
        let front = fields.drop_last();
        assert(are_fields(front)) by {
            assert forall|i: int| 0 <= i < front.len() implies {
                let field = #[trigger] front[i];
                !field.contains(':') && !field.contains('\n') && !field.contains('\r')
            } by {
                assert(front[i] == fields[i]);
            }
        }
        lemma_fields_split(front);
        let lead = joined(front, seq![':']);
        assert(line == lead + seq![':'] + last);
        assert(line == lead.push(':') + last);
        law_splitting_cuts_at_every_separator(lead, last, ':');
        assert(front + seq![last] == fields);
        if line.contains('\n') {
            let k = choose|k: int| 0 <= k < line.len() && line[k] == '\n';
            if k < lead.len() {
                assert(lead[k] == '\n');
            } else {
                assert(last[k - lead.len() - 1] == '\n');
            }
        }
        if line.contains('\r') {
            let k = choose|k: int| 0 <= k < line.len() && line[k] == '\r';
            if k < lead.len() {
                assert(lead[k] == '\r');
            } else {
                assert(last[k - lead.len() - 1] == '\r');
            }
        }
    }
}

proof fn lemma_fpr_line(fields: Seq<Seq<char>>)
    requires
        fields.len() > 0,
        are_fields(fields),
    ensures
        "fpr:"@.is_prefix_of(joined(fields, seq![':'])) <==> fields.len() > 1 && fields[0] == seq![
            'f',
            'p',
            'r',
        ],
{
    reveal_strlit("fpr:");
    let word = "fpr:"@;
    let line = joined(fields, seq![':']);
    let first = fields[0];
    assert(!first.contains(':'));
    if fields.len() == 1 {
        assert(line == first);
        if word.is_prefix_of(line) {
            assert(line.subrange(0, 4)[3] == ':');
            assert(first[3] == ':');
        }
    } else {
        law_joining_concatenates(seq![first], fields.skip(1), first, seq![':']);
        assert(seq![first] + fields.skip(1) == fields);
        let rest = joined(fields.skip(1), seq![':']);
        assert(line == first + seq![':'] + rest);
        if word.is_prefix_of(line) {
            let head = line.subrange(0, 4);
            assert(head[0] == 'f' && head[1] == 'p' && head[2] == 'r' && head[3] == ':');
            assert(line[first.len() as int] == ':');
            if first.len() > 3 {
                assert(first[3] == ':');
            }
            assert(first.len() == 3) by {
                if first.len() < 3 {
                    assert(line[first.len() as int] == head[first.len() as int]);
                }
            }
            assert(first == seq!['f', 'p', 'r']);
        }
        if first == seq!['f', 'p', 'r'] {
            assert(line.subrange(0, 4) == word);
        }
    }
}

/// A line of a listing makes a fingerprint known exactly if its fields, parted by
/// colons, begin with `fpr`, and the tenth of them is that fingerprint, letter
/// case aside.
pub proof fn law_a_line_names_its_tenth_field(fields: Seq<Seq<char>>, print: Seq<char>)
    requires
        fields.len() > 0,
        are_fields(fields),
    ensures
        listing_names(joined(fields, seq![':']).push('\n'), print) <==> {
            &&& fields.len() > 9
            &&& fields[0] == seq!['f', 'p', 'r']
            &&& print.len() > 0
            &&& lowered(fields[9]) == print
        },
{
    let line = joined(fields, seq![':']);
    let empty = Seq::<char>::empty();
    let text = line.push('\n');
    lemma_fields_split(fields);
    lemma_fpr_line(fields);
    assert(text == line.push('\n') + empty);
    law_splitting_cuts_at_every_separator(line, empty, '\n');
    assert(split_on(text, '\n') == seq![line] + seq![empty]);
    let pieces = seq![line] + seq![empty];
    assert(pieces.drop_last() == seq![line]);
    assert(pieces.last() == empty);
    assert(without_return(line) == line) by {
        if line.len() > 0 {
            assert(line.contains(line.last()));
        }
    }
    assert(lines_of(text) == seq![line]);
    if print.len() > 0 && lowered(empty) == print {
        assert(lowered(empty) == small_letters(empty));
    }
    if line_names(line, print) {
        assert(lines_of(text)[0] == line);
        if fields.len() <= 9 {
            assert(field_of(line, 9) == empty);
            assert(is_ascii_chars(empty));
            assert(small_letters(empty).len() == 0);
        }
    }
    if listing_names(text, print) {
        let i = choose|i: int|
            0 <= i < lines_of(text).len() && line_names(#[trigger] lines_of(text)[i], print);
        assert(lines_of(text)[i] == line);
    }
}

/// Wherever it stands among complete lines, a line whose first field is `fpr`
/// makes its tenth field known, in small letters.
pub proof fn law_every_line_of_a_listing_counts(
    before: Seq<char>,
    fields: Seq<Seq<char>>,
    after: Seq<char>,
    print: Seq<char>,
)
    requires
        before.len() == 0 || before.last() == '\n',
        are_fields(fields),
        fields.len() > 9,
        fields[0] == seq!['f', 'p', 'r'],
        is_ascii_chars(fields[9]),
        fields[9].len() > 0,
        print.len() == fields[9].len(),
        forall|i: int|
            0 <= i < print.len() ==> #[trigger] print[i] == if 'A' <= fields[9][i] <= 'Z' {
                (fields[9][i] as u32 + 32) as char
            } else {
                fields[9][i]
            },
    ensures
        listing_names(before + joined(fields, seq![':']).push('\n') + after, print),
{
    let line = joined(fields, seq![':']).push('\n');
    assert(small_letters(fields[9]) == print);
    law_a_line_names_its_tenth_field(fields, print);
    law_listings_add_up(before, line, print);
    assert((before + line).last() == '\n');
    law_listings_add_up(before + line, after, print);
}

/// The listing is what `gpg` printed, if it ran and succeeded, and every recipient
/// is held against it; without recipients nothing is asked of it.
pub proof fn law_the_whole_listing_is_read(
    recipients: Seq<Seq<char>>,
    success: bool,
    stdout: Vec<u8>,
    stderr: Vec<u8>,
)
    ensures
        ({
            let listing = Listing::Ran { success, stdout, stderr };
            &&& success && recipients.len() > 0 ==> (recipients_problem(recipients, listing) is None
                <==> forall|i: int|
                0 <= i < recipients.len() ==> is_fingerprint(#[trigger] recipients[i])
                    && listing_names(shown(stdout@), small_letters(recipients[i])))
            &&& !success && recipients.len() > 0 ==> recipients_problem(recipients, listing) is Some
            &&& recipients.len() == 0 ==> recipients_problem(recipients, listing) is None
        }),
{
    let listing = Listing::Ran { success, stdout, stderr };
    let bad = |r: Seq<char>| !is_fingerprint(r);
    if success {
        law_every_recipient_counts(recipients, shown(stdout@), listing);
    }
    if recipients.len() == 0 {
        lemma_first_index(recipients, bad, 0);
    }
}

proof fn lemma_recipient_args(recipients: Seq<Seq<char>>, i: int)
    requires
        0 <= i < recipients.len(),
    ensures
        recipient_args(recipients).len() == 2 * recipients.len(),
        recipient_args(recipients)[2 * i] == encode_utf8("--recipient"@),
        recipient_args(recipients)[2 * i + 1] == encode_utf8(recipients[i]),
    decreases recipients.len(),
{
    lemma_recipient_count(recipients.drop_last());
    if i < recipients.len() - 1 {
        lemma_recipient_args(recipients.drop_last(), i);
    }
}

proof fn lemma_recipient_count(recipients: Seq<Seq<char>>)
    ensures
        recipient_args(recipients).len() == 2 * recipients.len(),
    decreases recipients.len(),
{
    if recipients.len() > 0 {
        lemma_recipient_count(recipients.drop_last());
    }
}

/// `gpg` is called for every recipient, whatever was replied before: behind six
/// fixed arguments stand `--recipient` and the `i`-th recipient for each `i`, then
/// where to write and what to encrypt, and nothing else.
pub proof fn law_gpg_is_given_every_recipient(
    plain: Seq<u8>,
    recipients: Seq<Seq<char>>,
    replies: Seq<EncryptReply>,
    i: int,
)
    requires
        encrypt_start(plain, recipients).stage is Gpg,
    ensures
        ({
            let state = encrypt_after(encrypt_start(plain, recipients), replies);
            let args = state.gpg_args();
            let n = recipients.len() as int;
            &&& args.len() == 9 + 2 * n
            &&& args[0] == encode_utf8("--batch"@) && args[1] == encode_utf8("--no-tty"@)
            &&& args[2] == encode_utf8("--quiet"@) && args[3] == encode_utf8("--compress-algo"@)
            &&& args[4] == encode_utf8("none"@) && args[5] == encode_utf8("--encrypt"@)
            &&& 0 <= i < n ==> args[6 + 2 * i] == encode_utf8("--recipient"@) && args[7 + 2 * i]
                == encode_utf8(recipients[i])
            &&& args[6 + 2 * n] == encode_utf8("--output"@)
            &&& args[7 + 2 * n] == state.part
            &&& args[8 + 2 * n] == plain
        }),
{
    let start = encrypt_start(plain, recipients);
    lemma_encrypt_history(start, replies);
    lemma_recipient_count(recipients);
    if 0 <= i < recipients.len() {
        lemma_recipient_args(recipients, i);
    }
}

/// An archive is encrypted next to itself: `<archive>.gpg`, by way of
/// `<archive>.gpg.part`, both in its own directory, for all the recipients given.
pub proof fn law_ciphertext_lies_next_to_the_archive(
    dir: Seq<u8>,
    name: Seq<char>,
    recipients: Seq<Seq<char>>,
)
    requires
        name.len() > 2,
        !name.contains('/'),
    ensures
        ({
            let plain = child(dir, encode_utf8(name));
            let start = encrypt_start(plain, recipients);
            &&& start.stage is Gpg
            &&& start.plain == plain
            &&& start.recipients == recipients
            &&& start.complete == child(
                tidy_end(dir),
                encode_utf8(name + seq!['.', 'g', 'p', 'g']),
            )
            &&& start.part == child(
                tidy_end(dir),
                encode_utf8(name + seq!['.', 'g', 'p', 'g', '.', 'p', 'a', 'r', 't']),
            )
        }),
{
    reveal_strlit(".gpg");
    reveal_strlit(".gpg.part");
    assert(".gpg"@ == seq!['.', 'g', 'p', 'g']);
    assert(".gpg.part"@ == seq!['.', 'g', 'p', 'g', '.', 'p', 'a', 'r', 't']);
    lemma_no_separator(name);
    lemma_encoding_is_no_shorter(name);
    lemma_child(dir, encode_utf8(name));
    lemma_shown(name);
}

/// An encryption whose every step succeeds goes on to its end, and yields the
/// ciphertext.
pub proof fn law_successful_encryption_goes_on(
    state: EncryptState,
    status: String,
    reply: EncryptReply,
)
    ensures
        state.stage is Gpg ==> state.next(EncryptReply::Exited { success: true, status }).stage
            is Rename,
        state.stage is Rename ==> state.next(EncryptReply::Did(Ok(()))).stage is RemovePlain,
        state.stage is RemovePlain ==> state.next(EncryptReply::Did(Ok(()))).stage
            == EncryptWait::Done(Ok::<Seq<u8>, Seq<Seq<char>>>(state.complete)),
        state.stage is Done ==> state.next(reply) == state,
{
}

/// A keyring is known by what `gpg` wrote exactly if it ran and succeeded.
pub proof fn law_only_successful_listings_are_read(listing: Listing)
    ensures
        listing_text(listing) is Ok <==> listing is Ran && listing->success,
        listing_text(listing) is Ok ==> listing_text(listing)->Ok_0 == shown(listing->stdout@),
        listing is NotRun ==> listing_text(listing)->Err_0.len() == listing->NotRun_0@.len() + 1,
{
}

/// Recipients that are fingerprints are refused for their key exactly where the
/// listing could not be had or lacks one, and a recipient that is no fingerprint is
/// refused without any listing.
pub proof fn law_formats_are_checked_one_by_one(recipients: Seq<Seq<char>>, listing: Listing)
    ensures
        format_problem(recipients) is None <==> forall|i: int|
            0 <= i < recipients.len() ==> is_fingerprint(#[trigger] recipients[i]),
        format_problem(recipients) is Some ==> recipients_problem(recipients, listing)
            == format_problem(recipients),
        recipients.len() > 0 && listing_text(listing) is Err ==> recipients_problem(
            recipients,
            listing,
        ) is Some,
        recipients.len() == 0 ==> recipients_problem(recipients, listing) is None,
{
    let bad = |r: Seq<char>| !is_fingerprint(r);
    lemma_first_index_is_first(recipients, bad);
    let b = first_index(recipients, bad);
    if b < recipients.len() {
        assert(bad(recipients[b]));
    } else {
        assert forall|i: int| 0 <= i < recipients.len() implies is_fingerprint(
            #[trigger] recipients[i],
        ) by {
            assert(!bad(recipients[i]));
        }
    }
}

/// A step of an encryption that fails fails it, and the cause is told whole; how
/// `gpg` exited is told too.
pub proof fn law_failed_encryption_tells_why(
    state: EncryptState,
    cause: Failure,
    status: String,
    chain: Seq<Seq<char>>,
)
    ensures
        state.stage is Gpg ==> {
            let then = state.next(EncryptReply::NotRun(cause)).stage;
            let exited = state.next(EncryptReply::Exited { success: false, status }).stage;
            &&& then is Done && then->Done_0 is Err && tells(then->Done_0->Err_0, cause@)
            &&& exited == EncryptWait::DropPart(seq!["gpg --encrypt exited with "@ + status@])
        },
        state.stage is Rename || state.stage is RemovePlain ==> {
            let then = state.next(EncryptReply::Did(Err(cause))).stage;
            then is Done && then->Done_0 is Err && tells(then->Done_0->Err_0, cause@)
        },
        state.stage == EncryptWait::DropPart(chain) ==> state.next(EncryptReply::Dropped).stage
            == EncryptWait::DropPlain(chain),
        state.stage == EncryptWait::DropPlain(chain) ==> state.next(EncryptReply::Dropped).stage
            == EncryptWait::Done(Err::<Seq<u8>, Seq<Seq<char>>>(chain)),
{
}

/// Of the recipients that are refused, the first is named: the first that is no
/// fingerprint, or else the first whose key the listing lacks.
pub proof fn law_the_first_bad_recipient_is_named(
    recipients: Seq<Seq<char>>,
    listing: Listing,
    text: Seq<char>,
    i: int,
)
    requires
        0 <= i < recipients.len(),
        listing_text(listing) == Ok::<Seq<char>, Seq<Seq<char>>>(text),
    ensures
        !is_fingerprint(recipients[i]) && (forall|j: int|
            0 <= j < i ==> is_fingerprint(#[trigger] recipients[j])) ==> {
            &&& format_problem(recipients) == Some(seq![not_a_fingerprint(recipients[i])])
            &&& recipients_problem(recipients, listing) == format_problem(recipients)
        },
        (forall|j: int| 0 <= j < recipients.len() ==> is_fingerprint(#[trigger] recipients[j]))
            && !listing_names(text, small_letters(recipients[i])) && (forall|j: int|
            0 <= j < i ==> listing_names(text, small_letters(#[trigger] recipients[j])))
            ==> recipients_problem(recipients, listing) == Some(
            seq![unknown_key(recipients[i])],
        ),
{
    let bad = |r: Seq<char>| !is_fingerprint(r);
    let unknown = |r: Seq<char>| !listing_names(text, lowered(r));
    if !is_fingerprint(recipients[i]) && (forall|j: int|
        0 <= j < i ==> is_fingerprint(#[trigger] recipients[j])) {
        lemma_first_index(recipients, bad, i);
    }
    if (forall|j: int| 0 <= j < recipients.len() ==> is_fingerprint(#[trigger] recipients[j]))
        && !listing_names(text, small_letters(recipients[i])) && (forall|j: int|
        0 <= j < i ==> listing_names(text, small_letters(#[trigger] recipients[j]))) {
        assert forall|j: int| 0 <= j < recipients.len() implies lowered(#[trigger] recipients[j])
            == small_letters(recipients[j]) by {
            lemma_fingerprint_is_ascii(recipients[j]);
        }
        lemma_first_index(recipients, bad, recipients.len() as int);
        lemma_first_index(recipients, unknown, i);
    }
}

/// A recipient that is refused is quoted in full.
pub proof fn law_refused_recipients_are_quoted(recipient: Seq<char>)
    ensures
        ("recipient '"@ + recipient + "' must be a full 40-hex-digit fingerprint"@).is_prefix_of(
            not_a_fingerprint(recipient),
        ),
        ("no public key "@ + recipient + " in the local gpg keyring"@).is_prefix_of(
            unknown_key(recipient),
        ),
{
    reveal_strlit("' must be a full 40-hex-digit fingerprint");
    reveal_strlit(
        "' must be a full 40-hex-digit fingerprint (short keyids are rejected for collision safety); get one with `gpg --list-keys --fingerprint`",
    );
    reveal_strlit(" in the local gpg keyring");
    reveal_strlit(
        " in the local gpg keyring; verify the fingerprint with `gpg --list-keys --fingerprint` and import the key first (gpg --import)",
    );
    let bad = "recipient '"@ + recipient + "' must be a full 40-hex-digit fingerprint"@;
    let unknown = "no public key "@ + recipient + " in the local gpg keyring"@;
    assert(not_a_fingerprint(recipient).subrange(0, bad.len() as int) == bad);
    assert(unknown_key(recipient).subrange(0, unknown.len() as int) == unknown);
}

/// A text is read line by line: what stands before its first line feed is a line,
/// without a carriage return at its end, and the lines of what follows come behind
/// it; a last line need not be ended, and then keeps all its characters.
pub proof fn law_texts_are_read_line_by_line(line: Seq<char>, rest: Seq<char>)
    requires
        !line.contains('\n'),
    ensures
        lines_of(line + seq!['\n'] + rest) == seq![
            if line.len() > 0 && line.last() == '\r' {
                line.drop_last()
            } else {
                line
            },
        ] + lines_of(rest),
        line.len() > 0 ==> lines_of(line) == seq![line],
        lines_of(Seq::empty()) == Seq::<Seq<char>>::empty(),
{
    let empty = Seq::<char>::empty();
    let bare = |line: Seq<char>| without_return(line);
    assert(line + seq!['\n'] + rest == line.push('\n') + rest);
    law_splitting_cuts_at_every_separator(line, rest, '\n');
    law_splitting_cuts_at_every_separator(empty, rest, '\n');
    lemma_split_nonempty(rest, '\n');
    let tail = split_on(rest, '\n');
    let pieces = seq![line] + tail;
    assert(split_on(line + seq!['\n'] + rest, '\n') == pieces);
    assert(pieces.last() == tail.last());
    assert(pieces.drop_last() == seq![line] + tail.drop_last());
    assert(pieces.drop_last().map_values(bare) == seq![without_return(line)]
        + tail.drop_last().map_values(bare));
    let one = seq![line];
    assert(one.drop_last().map_values(bare) == Seq::<Seq<char>>::empty());
    let none = seq![empty];
    assert(split_on(empty, '\n') == none);
    assert(none.drop_last().map_values(bare) == Seq::<Seq<char>>::empty());
}

} // verus!
