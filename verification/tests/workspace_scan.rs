use staging_index::{
    DirEntry, FileKind, FileStat, IndexError, ScanAction, ScanEvent, Workspace,
};
use staging_index::ignore::{ignored_list, is_listed};
use staging_index::paths::join_path;
use std::collections::HashMap;

type Tree = HashMap<Vec<u8>, Vec<(&'static str, FileKind)>>;

fn file(name: &'static str) -> (&'static str, FileKind) {
    (name, FileKind::File)
}

fn dir(name: &'static str) -> (&'static str, FileKind) {
    (name, FileKind::Directory)
}

fn listing(entries: &[(&'static str, FileKind)]) -> Vec<DirEntry> {
    entries.iter().map(|(name, kind)| DirEntry { name: name.as_bytes().to_vec(), kind: *kind }).collect()
}

/// Walks `tree` as a caller would walk the disk. Besides the outcome it
/// gives the directories that were read, in order.
fn walk(tree: &Tree) -> (Result<Vec<String>, (IndexError, String)>, Vec<String>) {
    let workspace = Workspace::new(b"/work".to_vec());
    let mut scanner = workspace.list_files();
    let mut read = Vec::new();
    let mut event = ScanEvent::Begin;
    loop {
        match scanner.step(event) {
            ScanAction::ReadDir(path) => {
                read.push(String::from_utf8(path.clone()).unwrap());
                event = match tree.get(&path) {
                    Some(entries) => ScanEvent::Listing(listing(entries)),
                    None => ScanEvent::Failed,
                };
            }
            ScanAction::Done(Ok(files)) => {
                let files = files.into_iter().map(|f| String::from_utf8(f).unwrap()).collect();
                return (Ok(files), read);
            }
            ScanAction::Done(Err(failure)) => {
                let at = String::from_utf8(failure.path).unwrap();
                return (Err((failure.kind, at)), read);
            }
        }
    }
}

fn tree(dirs: &[(&'static str, &[(&'static str, FileKind)])]) -> Tree {
    dirs.iter().map(|(path, entries)| (path.as_bytes().to_vec(), entries.to_vec())).collect()
}

#[test]
fn the_walk_is_depth_first_in_listing_order() {
    let disk = tree(&[
        ("", &[file("z.txt"), dir("lib"), file("a.txt"), dir("docs")]),
        ("lib", &[file("one.rs"), dir("deep"), file("two.rs")]),
        ("lib/deep", &[file("x")]),
        ("docs", &[file("readme")]),
    ]);
    let (files, read) = walk(&disk);
    assert_eq!(
        files.unwrap(),
        vec!["z.txt", "lib/one.rs", "lib/deep/x", "lib/two.rs", "a.txt", "docs/readme"]
    );
    assert_eq!(read, vec!["", "lib", "lib/deep", "docs"]);
}

#[test]
fn nothing_under_dot_git_is_listed_at_any_depth() {
    let disk = tree(&[
        ("", &[dir(".git"), file("kept"), dir("a")]),
        (".git", &[file("HEAD"), dir("objects")]),
        (".git/objects", &[file("ab")]),
        ("a", &[dir("b"), file("f")]),
        ("a/b", &[dir(".git"), file("g")]),
        ("a/b/.git", &[file("config")]),
    ]);
    let (files, read) = walk(&disk);
    let files = files.unwrap();
    assert_eq!(files, vec!["kept", "a/b/g", "a/f"]);
    assert!(files.iter().all(|f| !f.split('/').any(|segment| segment == ".git")));
    assert!(files.iter().all(|f| !f.starts_with('/') && !f.starts_with("/work")));
    // The directories themselves are never read.
    assert_eq!(read, vec!["", "a", "a/b"]);
}

#[test]
fn every_fixed_name_is_left_out() {
    let disk = tree(&[
        (
            "",
            &[
                file("."),
                dir(".."),
                dir(".vscode"),
                dir(".git"),
                dir("target"),
                dir("src"),
                file(".gitignore"),
                file("Cargo.toml"),
                dir("tests"),
            ],
        ),
        ("tests", &[file("src"), file("target"), file(".gitignore"), file("t.rs")]),
    ]);
    let (files, read) = walk(&disk);
    assert_eq!(files.unwrap(), vec!["Cargo.toml", "tests/t.rs"]);
    assert_eq!(read, vec!["", "tests"]);
}

#[test]
fn a_name_that_only_ends_like_a_fixed_name_is_kept() {
    let disk = tree(&[
        ("", &[file("notes.git"), dir("my.git"), file("targets"), file("src.rs"), file("x.gitignore")]),
        ("my.git", &[file("inner")]),
    ]);
    let (files, _) = walk(&disk);
    assert_eq!(files.unwrap(), vec!["notes.git", "my.git/inner", "targets", "src.rs", "x.gitignore"]);
}

#[test]
fn what_is_neither_file_nor_directory_is_skipped() {
    let disk = tree(&[("", &[("socket", FileKind::Other), file("f"), ("", FileKind::File), ("a/b", FileKind::File)])]);
    let (files, _) = walk(&disk);
    assert_eq!(files.unwrap(), vec!["f"]);
}

#[test]
fn an_empty_tree_has_no_files() {
    let disk = tree(&[("", &[])]);
    let (files, read) = walk(&disk);
    assert_eq!(files.unwrap(), Vec::<String>::new());
    assert_eq!(read, vec![""]);
}

#[test]
fn a_directory_that_cannot_be_read_fails_the_walk_at_its_path() {
    let disk = tree(&[("", &[file("f"), dir("gone"), file("g")])]);
    let (files, read) = walk(&disk);
    assert_eq!(files, Err((IndexError::IoFailure, "gone".to_string())));
    assert_eq!(read, vec!["", "gone"]);

    let nothing = tree(&[]);
    let (files, _) = walk(&nothing);
    assert_eq!(files, Err((IndexError::IoFailure, String::new())));
}

#[test]
fn a_root_that_is_a_file_is_the_one_file() {
    let workspace = Workspace::new(b"/work/file".to_vec());
    let mut scanner = workspace.list_files();
    assert!(matches!(scanner.step(ScanEvent::Begin), ScanAction::ReadDir(path) if path.is_empty()));
    match scanner.step(ScanEvent::NotADirectory) {
        ScanAction::Done(Ok(files)) => assert_eq!(files, vec![Vec::<u8>::new()]),
        other => panic!("unexpected {:?}", other),
    }
}

#[test]
fn a_walk_that_is_over_or_not_begun_takes_no_listing() {
    let workspace = Workspace::new(b"/work".to_vec());
    let mut fresh = workspace.list_files();
    match fresh.step(ScanEvent::Listing(listing(&[file("f")]))) {
        ScanAction::Done(Err(failure)) => {
            assert_eq!(failure.kind, IndexError::IoFailure);
            assert!(failure.path.is_empty());
        }
        other => panic!("unexpected {:?}", other),
    }

    let mut done = workspace.list_files();
    done.step(ScanEvent::Begin);
    assert!(matches!(done.step(ScanEvent::Listing(Vec::new())), ScanAction::Done(Ok(_))));
    assert!(matches!(done.step(ScanEvent::Listing(Vec::new())), ScanAction::Done(Err(_))));
    assert!(matches!(done.step(ScanEvent::Begin), ScanAction::Done(Err(_))));
}

#[test]
fn is_ignored_looks_at_whole_segments() {
    let workspace = Workspace::new(b"/work".to_vec());
    for path in [
        ".git", ".git/HEAD", "a/.git", "a/.git/config", "a/b/.git/c/d", "target/debug/x", "src",
        "a/src/b", ".gitignore", "a/.gitignore", ".vscode/settings.json", ".", "..", "a/./b",
        "a/../b", "/src", "src/",
    ] {
        assert!(workspace.is_ignored(path.as_bytes()), "{}", path);
    }
    for path in [
        "", "a", "a/b/c", "notes.git", "a/foo.git", ".gitx", "x.git/y", "targets", "my-target/x",
        "srcs/a", "a/src.rs", ".gitignore.bak", "...", "a//b", ".github/workflows",
    ] {
        assert!(!workspace.is_ignored(path.as_bytes()), "{}", path);
    }
}

#[test]
fn absolute_puts_the_root_before_a_relative_path() {
    assert_eq!(Workspace::new(b"/work".to_vec()).absolute(b"a/b.txt"), b"/work/a/b.txt");
    assert_eq!(Workspace::new(b"/work/".to_vec()).absolute(b"a/b.txt"), b"/work/a/b.txt");
    assert_eq!(Workspace::new(b"".to_vec()).absolute(b"a/b.txt"), b"a/b.txt");
    assert_eq!(Workspace::new(b"/work".to_vec()).absolute(b""), b"/work/");
    assert_eq!(Workspace::new(b"/work".to_vec()).absolute(b"/etc/passwd"), b"/etc/passwd");
    assert_eq!(Workspace::new(b"rel".to_vec()).path(), b"rel");
}

#[test]
fn missing_metadata_is_a_stat_failure_at_the_path() {
    let workspace = Workspace::new(b"/work".to_vec());
    let given = FileStat {
        ctime: 1,
        ctime_nsec: 2,
        mtime: 3,
        mtime_nsec: 4,
        dev: 5,
        ino: 6,
        mode: 0o100644,
        uid: 7,
        gid: 8,
        size: 9,
    };
    assert_eq!(workspace.stat_file(b"a".to_vec(), Some(given)).unwrap(), given);
    let failure = workspace.stat_file(b"a/b".to_vec(), None).unwrap_err();
    assert_eq!(failure.kind, IndexError::StatFailure);
    assert_eq!(failure.path, b"a/b");
}

#[test]
fn missing_content_is_an_io_failure_at_the_path() {
    let workspace = Workspace::new(b"/work".to_vec());
    assert_eq!(workspace.read_data(b"a".to_vec(), Some(vec![0, 159, 255])).unwrap(), vec![0, 159, 255]);
    let failure = workspace.read_data(b"a/b".to_vec(), None).unwrap_err();
    assert_eq!(failure.kind, IndexError::IoFailure);
    assert_eq!(failure.path, b"a/b");
}

#[test]
fn the_fixed_names_are_seven() {
    let names = ignored_list();
    let expected: Vec<Vec<u8>> = [".", "..", ".vscode", ".git", "target", "src", ".gitignore"]
        .iter()
        .map(|name| name.as_bytes().to_vec())
        .collect();
    assert_eq!(names, expected);
    for name in &expected {
        assert!(is_listed(&names, name));
    }
    for name in ["", "git", ".git ", ".GIT", "Target", "src/"] {
        assert!(!is_listed(&names, name.as_bytes()), "{:?}", name);
    }
}

#[test]
fn join_puts_a_separator_between_directory_and_name() {
    assert_eq!(join_path(b"", b"name"), b"name");
    assert_eq!(join_path(b"dir", b"name"), b"dir/name");
    assert_eq!(join_path(b"a/b", b"c"), b"a/b/c");
    assert_eq!(join_path(b"dir", b""), b"dir/");
}
