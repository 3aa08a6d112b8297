//! Recipients, the keyring, and the steps of an encryption.

use vaultwarden_backup::crypto::{
    check_recipients, encrypt, fingerprints, lines, list_public_keys, needs_keyring,
    validate_recipient, Encrypt, EncryptReply, EncryptStage, Listing,
};
use vaultwarden_backup::failure::Failure;
use vaultwarden_backup::path::FilePath;

const FPR: &str = "a1b2c3d4e5f60718293a4b5c6d7e8f9012345678";

fn path(text: &str) -> FilePath {
    FilePath::from_text(text)
}

fn listing(text: &str) -> Listing {
    Listing::Ran { success: true, stdout: text.as_bytes().to_vec(), stderr: Vec::new() }
}

fn keyring() -> Listing {
    listing(
        "tru::1:1700000000:0:3:1:5\n\
         pub:u:255:22:0718293A4B5C6D7E:1700000000:::u:::scESC::::::23::0:\n\
         fpr:::::::::A1B2C3D4E5F60718293A4B5C6D7E8F9012345678:\n\
         uid:u::::1700000000::AA::Someone <someone@example.com>::::::::::0:\n\
         sub:u:255:18:1111111111111111:1700000000::::::e::::::23:\n\
         fpr:::::::::00000000000000000000000011111111111111AB:\n",
    )
}

#[test]
fn recipient_format_is_checked() {
    let fpr = "a1b2c3d4e5f60718293a4b5c6d7e8f9012345678";
    assert!(validate_recipient(fpr).is_ok());
    // Short keyids are rejected outright: only full 40-hex fingerprints.
    assert!(
        validate_recipient(&fpr[..16]).is_err(),
        "16-hex keyid rejected"
    );
    assert!(
        validate_recipient(&fpr[..8]).is_err(),
        "8-hex keyid rejected"
    );
    assert!(validate_recipient("0123456789").is_err());
    // 40 chars but not hex.
    assert!(validate_recipient(&"g".repeat(40)).is_err());
    assert!(validate_recipient("").is_err());
}

#[test]
fn a_bad_recipient_is_told() {
    assert_eq!(
        validate_recipient("abc").unwrap_err().headline(),
        "recipient 'abc' must be a full 40-hex-digit fingerprint (short keyids are rejected for \
         collision safety); get one with `gpg --list-keys --fingerprint`"
    );
    assert!(validate_recipient(&"é".repeat(20)).is_err(), "40 bytes, but no digits");
}

#[test]
fn the_keyring_is_needed_only_for_recipients() {
    assert_eq!(needs_keyring(&vec![]), Ok(false));
    assert_eq!(needs_keyring(&vec![FPR.to_string()]), Ok(true));
    assert!(needs_keyring(&vec![FPR.to_string(), "short".to_string()]).is_err());
}

#[test]
fn lines_end_in_either_way() {
    assert_eq!(lines("a\r\nb\n\nc\r"), vec!["a", "b", "", "c\r"]);
    assert_eq!(lines("a\n"), vec!["a"]);
    assert!(lines("").is_empty());
    assert_eq!(lines("\r\n"), vec![""]);
}

#[test]
fn fingerprints_of_keys_and_subkeys_are_read() {
    let known = list_public_keys(&keyring()).unwrap();
    assert_eq!(
        known,
        vec![
            "a1b2c3d4e5f60718293a4b5c6d7e8f9012345678",
            "00000000000000000000000011111111111111ab",
        ]
    );
    assert_eq!(fingerprints("fpr:1:2:3:4:5:6:7:8:É9:rest"), vec!["é9"]);
    assert!(fingerprints("fpr:::::::::\nfpr:a:b\nxfpr:::::::::AA:\n").is_empty());
}

#[test]
fn an_ill_formed_listing_is_still_read() {
    let mut stdout = b"uid:\xff\xfe:\n".to_vec();
    stdout.extend_from_slice(b"fpr:::::::::AB\xff:\n");
    let listing = Listing::Ran { success: true, stdout, stderr: Vec::new() };
    assert_eq!(list_public_keys(&listing).unwrap(), vec!["ab\u{fffd}"]);
}

#[test]
fn recipients_are_matched_without_regard_to_case() {
    for spelling in [FPR.to_string(), FPR.to_uppercase(), "00000000000000000000000011111111111111Ab".to_string()] {
        assert!(check_recipients(&vec![spelling.clone()], &keyring()).is_ok(), "{spelling}");
    }
}

#[test]
fn every_recipient_must_be_known() {
    let zero = "0".repeat(40);
    let failure = check_recipients(&vec![FPR.to_string(), zero.clone()], &keyring()).unwrap_err();
    assert_eq!(
        failure.headline(),
        format!(
            "no public key {zero} in the local gpg keyring; verify the fingerprint with \
             `gpg --list-keys --fingerprint` and import the key first (gpg --import)"
        )
    );
    assert!(check_recipients(&vec![], &keyring()).is_ok());
    // The format is checked first, and a listing that failed does not hide it.
    let failed = Listing::NotRun(Failure::say("no such file"));
    let failure = check_recipients(&vec!["x".to_string()], &failed).unwrap_err();
    assert!(failure.headline().contains("40-hex-digit"));
    // Without recipients the listing does not matter.
    assert!(check_recipients(&vec![], &failed).is_ok());
}

#[test]
fn a_listing_that_fails_is_told() {
    let failure =
        check_recipients(&vec![FPR.to_string()], &Listing::NotRun(Failure::say("not found")))
            .unwrap_err();
    assert_eq!(failure.full(), "run `gpg` (is GnuPG installed and in PATH?): not found");
    let bad = Listing::Ran { success: false, stdout: Vec::new(), stderr: b"gpg: oops\n".to_vec() };
    let failure = check_recipients(&vec![FPR.to_string()], &bad).unwrap_err();
    assert_eq!(failure.headline(), "gpg --list-keys failed: gpg: oops\n");
}

fn begin() -> Encrypt {
    encrypt(path("/scratch/v.tgz"), vec!["AA".to_string(), "BB".to_string()])
}

#[test]
fn gpg_is_called_with_every_recipient() {
    let args: Vec<String> =
        begin().gpg_args().into_iter().map(|a| String::from_utf8(a).unwrap()).collect();
    assert_eq!(
        args,
        vec![
            "--batch", "--no-tty", "--quiet", "--compress-algo", "none", "--encrypt",
            "--recipient", "AA", "--recipient", "BB", "--output", "/scratch/v.tgz.gpg.part",
            "/scratch/v.tgz",
        ]
    );
}

#[test]
fn an_encryption_leaves_only_the_ciphertext() {
    let e = begin();
    let e = e.resume(EncryptReply::Exited { success: true, status: "exit status: 0".to_string() });
    assert!(matches!(e.stage, EncryptStage::Rename));
    let e = e.resume(EncryptReply::Dropped);
    assert!(matches!(e.stage, EncryptStage::Rename), "another reply changes nothing");
    let e = e.resume(EncryptReply::Did(Ok(())));
    assert!(matches!(e.stage, EncryptStage::RemovePlain));
    let e = e.resume(EncryptReply::Did(Ok(())));
    match e.stage {
        EncryptStage::Done(Ok(p)) => assert_eq!(p, path("/scratch/v.tgz.gpg")),
        other => panic!("{other:?}"),
    }
}

#[test]
fn a_failed_gpg_leaves_nothing() {
    let e = begin();
    let e = e.resume(EncryptReply::Exited { success: false, status: "exit status: 2".to_string() });
    assert!(matches!(e.stage, EncryptStage::DropPart(_)));
    let e = e.resume(EncryptReply::Dropped);
    assert!(matches!(e.stage, EncryptStage::DropPlain(_)));
    let e = e.resume(EncryptReply::Dropped);
    match e.stage {
        EncryptStage::Done(Err(f)) => assert_eq!(f.full(), "gpg --encrypt exited with exit status: 2"),
        other => panic!("{other:?}"),
    }
}

#[test]
fn each_step_of_an_encryption_can_fail() {
    let fail = || Failure::say("io");
    match begin().resume(EncryptReply::NotRun(fail())).stage {
        EncryptStage::Done(Err(f)) => assert_eq!(f.full(), "run `gpg --encrypt`: io"),
        other => panic!("{other:?}"),
    }
    let ok = || EncryptReply::Exited { success: true, status: String::new() };
    match begin().resume(ok()).resume(EncryptReply::Did(Err(fail()))).stage {
        EncryptStage::Done(Err(f)) => assert_eq!(
            f.full(),
            "rename /scratch/v.tgz.gpg.part -> /scratch/v.tgz.gpg: io"
        ),
        other => panic!("{other:?}"),
    }
    let e = begin().resume(ok()).resume(EncryptReply::Did(Ok(())));
    match e.resume(EncryptReply::Did(Err(fail()))).stage {
        EncryptStage::Done(Err(f)) => assert_eq!(f.full(), "remove plaintext /scratch/v.tgz: io"),
        other => panic!("{other:?}"),
    }
}

#[test]
fn a_path_that_names_no_file_is_not_encrypted() {
    for (text, message) in [
        ("/", "archive has no parent directory"),
        ("", "archive has no parent directory"),
        ("a/..", "archive has no file name"),
    ] {
        match encrypt(path(text), vec![]).stage {
            EncryptStage::Done(Err(f)) => assert_eq!(f.full(), message, "{text:?}"),
            other => panic!("{other:?}"),
        }
    }
}
