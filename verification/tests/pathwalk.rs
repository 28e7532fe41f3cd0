//! Path matching and walk-event classification.

use backer::pathwalk::{
    extension_of, CaseInsensitiveExtensions, DirEntry, EntryKind, Files, WalkEvent,
};

fn jpeg_matcher() -> CaseInsensitiveExtensions {
    CaseInsensitiveExtensions(vec!["jpg".to_string(), "jpeg".to_string()])
}

#[test]
fn case_insensitive_jpeg_extensions() {
    let jpegs = jpeg_matcher();

    // Positive
    assert!(jpegs.matches(Some("jpg")));
    assert!(jpegs.matches(Some("jpeg")));
    assert!(jpegs.matches(Some("JPG")));
    assert!(jpegs.matches(Some("JPEG")));

    // Negative
    assert!(!jpegs.matches(None));
    assert!(!jpegs.matches(Some("png")));
}

#[test]
fn constructor() {
    let _ = Files::new(
        ".",
        vec![CaseInsensitiveExtensions::boxed(vec![
            "jpg".to_string(),
            "jpeg".to_string(),
        ])],
    );
}

#[test]
fn extension_reading() {
    assert_eq!(extension_of("foo-dir/foo-file.jpeg"), Some("jpeg"));
    assert_eq!(extension_of("a/b/c.tar.GZ"), Some("GZ"));
    assert_eq!(extension_of("noext"), None);
    assert_eq!(extension_of("dir.d/noext"), None);
    assert_eq!(extension_of(".hidden"), None);
    assert_eq!(extension_of(""), None);
}

fn classify(files: &Files, ev: WalkEvent) -> Option<Result<DirEntry, String>> {
    files.classify(&ev)
}

#[test]
fn classify_walk_events() {
    let files = Files::new(
        "/root/tree",
        vec![CaseInsensitiveExtensions::boxed(vec![
            "jpg".to_string(),
            "jpeg".to_string(),
        ])],
    );

    // A matching file is yielded under its root-relative path.
    let r = classify(
        &files,
        WalkEvent::Entry { path: "/root/tree/sub/pic.JPG".to_string(), kind: EntryKind::File },
    );
    assert_eq!(r.unwrap().unwrap().relative_path(), "sub/pic.JPG");

    // A file whose extension does not match is dropped silently.
    let r = classify(
        &files,
        WalkEvent::Entry { path: "/root/tree/readme.txt".to_string(), kind: EntryKind::File },
    );
    assert!(r.is_none());

    // Directories are skipped silently.
    let r = classify(
        &files,
        WalkEvent::Entry { path: "/root/tree/sub".to_string(), kind: EntryKind::Dir },
    );
    assert!(r.is_none());

    // A symbolic link is an error item, not skipped and not followed.
    let r = classify(
        &files,
        WalkEvent::Entry { path: "/root/tree/link.jpg".to_string(), kind: EntryKind::Symlink },
    );
    assert!(r.unwrap().is_err());

    // A walk error passes through as an error item.
    let r = classify(&files, WalkEvent::Error("permission denied".to_string()));
    assert_eq!(r.unwrap().unwrap_err(), "permission denied");

    // A path outside the root is an error item.
    let r = classify(
        &files,
        WalkEvent::Entry { path: "/elsewhere/pic.jpg".to_string(), kind: EntryKind::File },
    );
    assert!(r.unwrap().is_err());
}
