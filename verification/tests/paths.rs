//! Paths, names in order, and chains of messages.

use vaultwarden_backup::failure::Failure;
use vaultwarden_backup::order::{no_later, sort_names};
use vaultwarden_backup::path::FilePath;
use vaultwarden_backup::text::{
    contains, join, number_text, segment_after_last, split, strip_prefix, strip_suffix, trim_char,
};

fn path(text: &str) -> FilePath {
    FilePath::from_text(text)
}

#[test]
fn names_and_parents_of_paths() {
    for (text, parent, name) in [
        ("/a/b", Some("/a"), Some("b")),
        ("/a/b/", Some("/a"), Some("b")),
        ("/a/b/.", Some("/a"), Some("b")),
        ("/a//b", Some("/a"), Some("b")),
        ("/a", Some("/"), Some("a")),
        ("a", Some(""), Some("a")),
        ("/", None, None),
        ("", None, None),
        (".", Some(""), None),
        ("..", Some(""), None),
        ("/a/..", Some("/a"), None),
        ("/a/.b", Some("/a"), Some(".b")),
    ] {
        let p = path(text);
        assert_eq!(p.parent(), parent.map(path), "parent of {text:?}");
        assert_eq!(p.file_name(), name.map(|n| n.as_bytes().to_vec()), "name of {text:?}");
        let std_path = std::path::Path::new(text);
        assert_eq!(std_path.parent().map(|p| p.to_str().unwrap()), parent, "std on {text:?}");
        assert_eq!(std_path.file_name().map(|n| n.to_str().unwrap()), name, "std on {text:?}");
    }
}

#[test]
fn children_and_places() {
    assert_eq!(path("/a").file("b"), path("/a/b"));
    assert_eq!(path("/a/").file("b"), path("/a/b"));
    assert_eq!(path("").file("b"), path("b"));
    assert_eq!(path("/").file("b"), path("/b"));
    assert!(path("/a/b").lies_within(&path("/a")));
    assert!(path("/a").lies_within(&path("/a")));
    assert!(!path("/ab").lies_within(&path("/a")), "whole names count");
    assert!(!path("/a").lies_within(&path("/a/b")));
    assert!(!path("a/b").lies_within(&path("/a")));
    assert!(path("/a//b/.").same_place(&path("/a/b")));
    assert!(!path("/a/b").same_place(&path("/a")));
    assert!(!path("a").same_place(&path("/a")));
}

#[test]
fn paths_are_shown_as_text() {
    assert_eq!(path("/名/字").display(), "/名/字");
    assert_eq!(FilePath { bytes: b"/a\xff".to_vec() }.display(), "/a\u{fffd}");
}

#[test]
fn names_are_sorted_by_bytes() {
    let names: Vec<Vec<u8>> =
        ["b", "a.txt", "a", "é", "B", "a-b", "", "\u{10000}", "z", "a"]
            .iter()
            .map(|n| n.as_bytes().to_vec())
            .collect();
    let mut expected = names.clone();
    expected.sort();
    assert_eq!(sort_names(names), expected);
    assert!(sort_names(vec![]).is_empty());
    assert!(no_later(&b"a".to_vec(), &b"a".to_vec()));
    assert!(no_later(&b"a".to_vec(), &b"a-".to_vec()));
    assert!(!no_later(&b"b".to_vec(), &b"a-".to_vec()));
    assert!(no_later(&b"\x7f".to_vec(), &b"\x80".to_vec()));
}

#[test]
fn failures_are_chains() {
    let failure = Failure::say("cause").context("inner".to_string()).context("outer".to_string());
    assert_eq!(failure.headline(), "outer");
    assert_eq!(failure.full(), "outer: inner: cause");
    assert_eq!(failure.clone(), failure);
}

#[test]
fn small_operations_on_text() {
    assert_eq!(number_text(0), "0");
    assert_eq!(number_text(340282366920938463463374607431768211455), u128::MAX.to_string());
    assert_eq!(split("a::b", ':'), vec!["a", "", "b"]);
    assert_eq!(split("", ':'), vec![""]);
    assert_eq!(join(&vec!["a".to_string(), "b".to_string()], "; "), "a; b");
    assert_eq!(join(&vec![], "; "), "");
    assert_eq!(trim_char("//a/b//", '/'), "a/b");
    assert_eq!(segment_after_last("a/b/c", '/'), "c");
    assert_eq!(segment_after_last("a/", '/'), "");
    assert_eq!(segment_after_last("abc", '/'), "abc");
    assert_eq!(strip_prefix("vault-1", "vault-"), Some("1".to_string()));
    assert_eq!(strip_prefix("vault", "vault-"), None);
    assert_eq!(strip_suffix("1.tgz", ".tgz"), Some("1".to_string()));
    assert_eq!(strip_suffix("tgz", ".tgz"), None);
    assert!(contains("database is locked", "locked"));
    assert!(!contains("lock", "locked"));
}
