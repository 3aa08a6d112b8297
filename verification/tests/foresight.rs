//! Where a directory will lie, before it is created.

use vaultwarden_backup::failure::Failure;
use vaultwarden_backup::foresee::{foresee, ForeseeStage, Resolution};
use vaultwarden_backup::path::FilePath;

/// Follow `path` where only `existing` exist, `/l` leads to `/real/dir`, and the
/// current directory is `/cwd`.
fn foreseen(path: &str, existing: &[&str]) -> String {
    let mut foresight = foresee(&FilePath::from_text(path));
    loop {
        let asked = String::from_utf8(foresight.asked().bytes).unwrap();
        match &foresight.stage {
            ForeseeStage::Begin => {
                let here = if asked == "." { "/cwd" } else { "/" };
                foresight = foresight.resume(Resolution::Found(FilePath::from_text(here)));
            }
            ForeseeStage::Follow => {
                let reply = if asked == "/l" {
                    Resolution::Found(FilePath::from_text("/real/dir"))
                } else if existing.contains(&asked.as_str()) {
                    Resolution::Found(FilePath::from_text(&asked))
                } else {
                    Resolution::Missing
                };
                foresight = foresight.resume(reply);
            }
            ForeseeStage::Done(Ok(path)) => return path.display(),
            ForeseeStage::Done(Err(failure)) => panic!("{failure:?}"),
        }
    }
}

#[test]
fn missing_names_stand_behind_what_exists() {
    let tree = ["/a", "/a/b", "/real", "/real/dir", "/real/dir/x", "/cwd/a"];
    for (path, expected) in [
        ("/", "/"),
        ("/a/b", "/a/b"),
        ("/a/b/c/d", "/a/b/c/d"),
        ("/a/./b//c/", "/a/b/c"),
        ("/n/m", "/n/m"),
        ("/a/n/../b", "/a/b"),
        ("/a/n/m/../../b/c", "/a/b/c"),
        ("/a/..", "/"),
        ("/../../a", "/a"),
        ("/l/x", "/real/dir/x"),
        ("/l/y/z", "/real/dir/y/z"),
        ("/l/..", "/real"),
        ("/a/n/../../l/y", "/real/dir/y"),
        ("a/c", "/cwd/a/c"),
        ("n", "/cwd/n"),
        ("", "/cwd"),
        ("../l", "/real/dir"),
    ] {
        assert_eq!(foreseen(path, &tree), expected, "{path:?}");
    }
}

#[test]
fn what_cannot_be_told_is_a_failure() {
    let foresight = foresee(&FilePath::from_text("/a"));
    let foresight = foresight.resume(Resolution::Found(FilePath::from_text("/")));
    match foresight.resume(Resolution::Failed(Failure::say("denied"))).stage {
        ForeseeStage::Done(Err(failure)) => assert_eq!(failure.full(), "denied"),
        other => panic!("{other:?}"),
    }
}
