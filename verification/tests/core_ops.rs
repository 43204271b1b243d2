//! The staging and committing operations, exercised end to end.

use vcs_core::error::Error;
use vcs_core::repo::{FileRec, Repository, WorkTree};

fn bytes(s: &str) -> Vec<u8> {
    s.as_bytes().to_vec()
}

fn file(path: &str, data: &str) -> FileRec {
    FileRec { path: bytes(path), data: bytes(data) }
}

fn sig(name: &str) -> vcs_core::object::Signature {
    vcs_core::object::Signature { name: bytes(name), timestamp: 1 }
}

fn fresh_repo() -> Repository {
    Repository::init(&None).unwrap()
}

#[test]
fn init() {
    let repo = Repository::init(&None);
    repo.unwrap();
}

#[test]
fn stage_nonexistent_file() {
    let mut repo = fresh_repo();
    let wt = WorkTree::new();

    let files = vec![bytes("file_does_not_exist")];
    repo.stage_paths(&wt, &files).unwrap();
    assert_eq!(repo.status().len(), 0);
}

#[test]
fn stage_directory() {
    let mut repo = fresh_repo();
    let wt = WorkTree { files: Vec::new(), dirs: vec![bytes("subdir")] };

    let files = vec![bytes("subdir")];
    repo.stage_paths(&wt, &files).unwrap();
    assert_eq!(repo.status().len(), 0);
}

#[test]
fn stage_directory_with_subfile() {
    let mut repo = fresh_repo();
    let wt = WorkTree {
        files: vec![file("subdir/subfile", "first data")],
        dirs: vec![bytes("subdir")],
    };

    let files = vec![bytes("subdir"), bytes("subdir/subfile")];
    repo.stage_paths(&wt, &files).unwrap();
    assert_eq!(repo.status(), vec![bytes("subdir/subfile")]);
}

#[test]
fn stage_existing_new_file() {
    let mut repo = fresh_repo();
    let wt = WorkTree { files: vec![file("first_file", "first data")], dirs: Vec::new() };

    let files = vec![bytes("first_file")];
    repo.stage_paths(&wt, &files).unwrap();
    assert_eq!(repo.status(), vec![bytes("first_file")]);
}

#[test]
fn commit_file_new_repo() {
    let mut repo = fresh_repo();
    let wt = WorkTree { files: vec![file("first_file", "first data")], dirs: Vec::new() };

    let files = vec![bytes("first_file")];
    repo.stage_paths(&wt, &files).unwrap();

    repo.commit(bytes("Added first_file"), sig("author")).unwrap();
    assert_eq!(repo.status().len(), 0);
}

#[test]
fn commit_file_existing_repo() {
    let mut repo = fresh_repo();
    let wt = WorkTree { files: vec![file("first_file", "first data")], dirs: Vec::new() };

    let files = vec![bytes("first_file")];
    repo.stage_paths(&wt, &files).unwrap();
    repo.commit(bytes("Added first_file"), sig("author")).unwrap();

    let wt = WorkTree {
        files: vec![file("first_file", "first data"), file("second_file", "second data")],
        dirs: Vec::new(),
    };
    let files = vec![bytes("second_file")];
    repo.stage_paths(&wt, &files).unwrap();
    repo.commit(bytes("Added second_file"), sig("author")).unwrap();

    let log = repo.log().unwrap();
    assert_eq!(log.len(), 2);
}

#[test]
fn commit_files_new_repo() {
    let mut repo = fresh_repo();
    let names = ["first_file", "second_file", "third_file"];
    let wt = WorkTree {
        files: names.iter().map(|n| file(n, n)).collect(),
        dirs: Vec::new(),
    };

    let files: Vec<Vec<u8>> = names.iter().map(|n| bytes(n)).collect();
    repo.stage_paths(&wt, &files).unwrap();
    repo.commit(bytes("Added files"), sig("author")).unwrap();

    let log = repo.log().unwrap();
    assert_eq!(log.len(), 1);
    assert_eq!(log[0].message, bytes("Added files"));
}

#[test]
fn stage_all_files() {
    let mut repo = fresh_repo();
    let names = ["first_file", "second_file", "third_file"];
    let wt = WorkTree {
        files: names.iter().map(|n| file(n, n)).collect(),
        dirs: Vec::new(),
    };

    repo.stage_all(&wt).unwrap();
    assert_eq!(repo.status().len(), 3);
}

#[test]
fn commit_all_files() {
    let mut repo = fresh_repo();
    let names = ["first_file", "second_file", "third_file"];
    let wt = WorkTree {
        files: names.iter().map(|n| file(n, n)).collect(),
        dirs: Vec::new(),
    };

    repo.stage_all(&wt).unwrap();
    repo.commit(bytes("added all files"), sig("author")).unwrap();

    let log = repo.log().unwrap();
    assert_eq!(log.len(), 1);
    assert_eq!(log[0].message, bytes("added all files"));
}

#[test]
fn status_lists_staged_paths() {
    let mut repo = fresh_repo();
    let wt = WorkTree {
        files: vec![file("b", "2"), file("a", "1")],
        dirs: Vec::new(),
    };
    repo.stage_all(&wt).unwrap();
    // The index keeps paths sorted, whatever order they were staged in.
    assert_eq!(repo.status(), vec![bytes("a"), bytes("b")]);
}

#[test]
fn open_missing_repository() {
    match Repository::open(None) {
        Err(Error::NotFound) => {}
        _ => panic!("opening a missing repository must report NotFound"),
    }
}

#[test]
fn open_existing_repository() {
    let repo = fresh_repo();
    let reopened = Repository::open(Some(repo)).unwrap();
    assert_eq!(reopened.status().len(), 0);
}
