//! Concrete checks of the library's stated behaviour: round trips through
//! the object store, order-independent trees, head resolution across the
//! first commit, history order, and the error taxonomy.

use sha2::Digest;
use vcs_core::error::Error;
use vcs_core::index::{Index, MODE_FILE};
use vcs_core::object::{
    CommitData, EntryKind, Object, Signature, TreeEntry, load_object, object_id, parse_object,
    serialize_object,
};
use vcs_core::oid::ObjectId;
use vcs_core::refs::head_name_vec;
use vcs_core::repo::{FileRec, Repository, WorkTree, is_path_included};
use vcs_core::store::ObjectStore;
use vcs_core::tree::MODE_DIR;

fn bytes(s: &str) -> Vec<u8> {
    s.as_bytes().to_vec()
}

fn file(path: &str, data: &str) -> FileRec {
    FileRec { path: bytes(path), data: bytes(data) }
}

fn sig(name: &str) -> Signature {
    Signature { name: bytes(name), timestamp: 1 }
}

fn fresh_repo() -> Repository {
    Repository::init(&None).unwrap()
}

#[test]
fn store_round_trip() {
    let mut store = ObjectStore::new();
    let id1 = store.put(Object::Blob(bytes("hello"))).unwrap();
    match store.get(&id1).unwrap() {
        Object::Blob(data) => assert_eq!(data, bytes("hello")),
        _ => panic!("a blob must come back as a blob"),
    }
    // A second identical put yields the same id and persists nothing new.
    let before = store.count();
    let id2 = store.put(Object::Blob(bytes("hello"))).unwrap();
    assert!(id1.same(&id2));
    assert_eq!(store.count(), before);
}

#[test]
fn write_tree_order_independent() {
    let mut store1 = ObjectStore::new();
    let mut idx1 = Index::new();
    idx1.stage(&mut store1, bytes("a"), bytes("1"), MODE_FILE).unwrap();
    idx1.stage(&mut store1, bytes("b"), bytes("2"), MODE_FILE).unwrap();
    let t1 = idx1.write_tree(&mut store1).unwrap();

    let mut store2 = ObjectStore::new();
    let mut idx2 = Index::new();
    idx2.stage(&mut store2, bytes("b"), bytes("2"), MODE_FILE).unwrap();
    idx2.stage(&mut store2, bytes("a"), bytes("1"), MODE_FILE).unwrap();
    let t2 = idx2.write_tree(&mut store2).unwrap();

    assert!(t1.same(&t2));
}

#[test]
fn restage_same_path_overwrites() {
    let mut store = ObjectStore::new();
    let mut idx = Index::new();
    idx.stage(&mut store, bytes("a"), bytes("old"), MODE_FILE).unwrap();
    idx.stage(&mut store, bytes("a"), bytes("new"), MODE_FILE).unwrap();
    assert_eq!(idx.len(), 1);
    let t_new = idx.write_tree(&mut store).unwrap();

    let mut store2 = ObjectStore::new();
    let mut idx2 = Index::new();
    idx2.stage(&mut store2, bytes("a"), bytes("new"), MODE_FILE).unwrap();
    let t_direct = idx2.write_tree(&mut store2).unwrap();
    assert!(t_new.same(&t_direct));
}

#[test]
fn unstage_drops_entry_and_tolerates_missing() {
    let mut store = ObjectStore::new();
    let mut idx = Index::new();
    idx.stage(&mut store, bytes("a"), bytes("1"), MODE_FILE).unwrap();
    idx.unstage(&bytes("not_there"));
    assert_eq!(idx.len(), 1);
    idx.unstage(&bytes("a"));
    assert_eq!(idx.len(), 0);
}

#[test]
fn resolve_head_unborn_then_first_commit() {
    let mut repo = fresh_repo();
    let head = head_name_vec();
    match repo.graph.resolve(&head) {
        Err(Error::UnbornBranch) => {}
        _ => panic!("a fresh repository's head must be unborn"),
    }

    let wt = WorkTree { files: vec![file("a.txt", "hello")], dirs: Vec::new() };
    repo.stage_paths(&wt, &vec![bytes("a.txt")]).unwrap();
    let cid = repo.commit(bytes("add a"), sig("alice")).unwrap();

    let resolved = repo.graph.resolve(&head).unwrap();
    assert!(resolved.same(&cid));
}

#[test]
fn history_of_three_commits() {
    let mut repo = fresh_repo();
    let mut cids: Vec<ObjectId> = Vec::new();
    for (path, msg) in [("a", "one"), ("b", "two"), ("c", "three")] {
        let wt = WorkTree { files: vec![file(path, path)], dirs: Vec::new() };
        repo.stage_paths(&wt, &vec![bytes(path)]).unwrap();
        cids.push(repo.commit(bytes(msg), sig("alice")).unwrap());
    }

    let log = repo.log().unwrap();
    assert_eq!(log.len(), 3);
    assert_eq!(log[0].message, bytes("three"));
    assert_eq!(log[1].message, bytes("two"));
    assert_eq!(log[2].message, bytes("one"));
    // Each commit carries the previous one as its sole parent; the first
    // carries none.
    assert_eq!(log[0].parents.len(), 1);
    assert!(log[0].parents[0].same(&cids[1]));
    assert_eq!(log[1].parents.len(), 1);
    assert!(log[1].parents[0].same(&cids[0]));
    assert_eq!(log[2].parents.len(), 0);
}

#[test]
fn commit_records_blob_tree_and_commit() {
    let mut repo = fresh_repo();
    let wt = WorkTree { files: vec![file("a.txt", "hello")], dirs: Vec::new() };
    repo.stage_paths(&wt, &vec![bytes("a.txt")]).unwrap();
    let cid = repo.commit(bytes("add a"), sig("alice")).unwrap();

    let blob_id = object_id(&Object::Blob(bytes("hello")));
    assert!(repo.store.contains(&blob_id));

    let entry = TreeEntry {
        name: bytes("a.txt"),
        mode: MODE_FILE,
        id: blob_id.dup(),
        kind: EntryKind::Blob,
    };
    let tree_id = object_id(&Object::Tree(vec![entry]));
    assert!(repo.store.contains(&tree_id));

    let expected = CommitData {
        tree: tree_id.dup(),
        parents: Vec::new(),
        author: sig("alice"),
        committer: sig("alice"),
        message: bytes("add a"),
    };
    let expected_cid = object_id(&Object::Commit(expected));
    assert!(cid.same(&expected_cid));
    assert!(repo.store.contains(&cid));

    let resolved = repo.graph.resolve(&head_name_vec()).unwrap();
    assert!(resolved.same(&cid));
}

#[test]
fn staging_missing_path_commits_empty_tree() {
    let mut repo = fresh_repo();
    let wt = WorkTree::new();
    repo.stage_paths(&wt, &vec![bytes("missing.txt")]).unwrap();
    let cid = repo.commit(bytes("x"), sig("alice")).unwrap();

    let empty_tree_id = object_id(&Object::Tree(Vec::new()));
    match repo.store.get(&cid).unwrap() {
        Object::Commit(cd) => {
            assert!(cd.tree.same(&empty_tree_id));
            assert_eq!(cd.parents.len(), 0);
            assert_eq!(cd.message, bytes("x"));
        }
        _ => panic!("the head must name a commit"),
    }
}

#[test]
fn reinit_fails_and_leaves_repository_untouched() {
    let mut repo = fresh_repo();
    let wt = WorkTree { files: vec![file("a", "1")], dirs: Vec::new() };
    repo.stage_paths(&wt, &vec![bytes("a")]).unwrap();
    let cid = repo.commit(bytes("m"), sig("alice")).unwrap();

    let slot = Some(repo);
    match Repository::init(&slot) {
        Err(Error::AlreadyExists) => {}
        _ => panic!("re-running init must report AlreadyExists"),
    }
    let repo = slot.unwrap();
    let resolved = repo.graph.resolve(&head_name_vec()).unwrap();
    assert!(resolved.same(&cid));
    assert!(repo.store.contains(&cid));
}

#[test]
fn get_missing_object_is_not_found() {
    let store = ObjectStore::new();
    let bogus = ObjectId::for_bytes(&bytes("nothing"));
    match store.get(&bogus) {
        Err(Error::NotFound) => {}
        _ => panic!("fetching a missing object must report NotFound"),
    }
}

#[test]
fn resolve_unknown_name_is_not_found() {
    let repo = fresh_repo();
    match repo.graph.resolve(&bytes("refs/nowhere")) {
        Err(Error::NotFound) => {}
        _ => panic!("resolving an unknown name must report NotFound"),
    }
}

#[test]
fn stage_file_missing_is_path_not_found() {
    let mut repo = fresh_repo();
    let wt = WorkTree::new();
    match repo.stage_file(&wt, &bytes("missing.txt")) {
        Err(Error::PathNotFound) => {}
        _ => panic!("staging a missing path directly must report PathNotFound"),
    }
}

#[test]
fn log_on_unborn_head_reports_unborn() {
    let repo = fresh_repo();
    match repo.log() {
        Err(Error::UnbornBranch) => {}
        _ => panic!("history before the first commit must report UnbornBranch"),
    }
}

#[test]
fn rerooting_history_is_invalid() {
    let mut repo = fresh_repo();
    let wt = WorkTree { files: vec![file("a", "1")], dirs: Vec::new() };
    repo.stage_paths(&wt, &vec![bytes("a")]).unwrap();
    repo.commit(bytes("m"), sig("alice")).unwrap();

    // A zero-parent commit after the first is a re-rooting of history.
    let tid = repo.index.write_tree(&mut repo.store).unwrap();
    let r = repo.graph.commit(
        &mut repo.store,
        &tid,
        bytes("again"),
        sig("alice"),
        sig("alice"),
        Vec::new(),
    );
    match r {
        Err(Error::InvalidParents) => {}
        _ => panic!("a zero-parent commit after the first must report InvalidParents"),
    }
}

#[test]
fn merge_commits_are_invalid() {
    let mut repo = fresh_repo();
    let wt = WorkTree { files: vec![file("a", "1")], dirs: Vec::new() };
    repo.stage_paths(&wt, &vec![bytes("a")]).unwrap();
    let cid = repo.commit(bytes("m"), sig("alice")).unwrap();

    let tid = repo.index.write_tree(&mut repo.store).unwrap();
    let r = repo.graph.commit(
        &mut repo.store,
        &tid,
        bytes("merge"),
        sig("alice"),
        sig("alice"),
        vec![cid.dup(), cid.dup()],
    );
    match r {
        Err(Error::InvalidParents) => {}
        _ => panic!("a two-parent commit must report InvalidParents"),
    }
}

#[test]
fn staging_a_path_replaces_what_it_shadows() {
    // A file and a directory of the same name cannot be staged together:
    // staging one drops the other, as the newest working-tree state wins.
    let mut store = ObjectStore::new();
    let mut idx = Index::new();
    idx.stage(&mut store, bytes("a"), bytes("plain file"), MODE_FILE).unwrap();
    idx.stage(&mut store, bytes("a/c"), bytes("nested file"), MODE_FILE).unwrap();
    assert_eq!(idx.paths(), vec![bytes("a/c")]);

    idx.stage(&mut store, bytes("a"), bytes("plain again"), MODE_FILE).unwrap();
    assert_eq!(idx.paths(), vec![bytes("a")]);

    // Dropping covers every entry beneath the staged path at once.
    let mut idx2 = Index::new();
    idx2.stage(&mut store, bytes("d/x"), bytes("1"), MODE_FILE).unwrap();
    idx2.stage(&mut store, bytes("d/y"), bytes("2"), MODE_FILE).unwrap();
    idx2.stage(&mut store, bytes("d"), bytes("3"), MODE_FILE).unwrap();
    assert_eq!(idx2.paths(), vec![bytes("d")]);
}

#[test]
fn tree_entries_are_sorted_by_name() {
    // "a.b" sorts after the directory "a" by name, though a plain byte
    // comparison of the paths "a.b" and "a/c" would say otherwise.
    let mut repo = fresh_repo();
    let wt = WorkTree {
        files: vec![file("a.b", "1"), file("a/c", "2")],
        dirs: vec![bytes("a")],
    };
    repo.stage_all(&wt).unwrap();
    assert_eq!(repo.status(), vec![bytes("a/c"), bytes("a.b")]);
    let cid = repo.commit(bytes("sorted"), sig("alice")).unwrap();

    let sub = Object::Tree(vec![TreeEntry {
        name: bytes("c"),
        mode: MODE_FILE,
        id: object_id(&Object::Blob(bytes("2"))),
        kind: EntryKind::Blob,
    }]);
    let sub_id = object_id(&sub);
    let root = Object::Tree(vec![
        TreeEntry { name: bytes("a"), mode: MODE_DIR, id: sub_id.dup(), kind: EntryKind::Tree },
        TreeEntry {
            name: bytes("a.b"),
            mode: MODE_FILE,
            id: object_id(&Object::Blob(bytes("1"))),
            kind: EntryKind::Blob,
        },
    ]);
    let root_id = object_id(&root);
    assert!(repo.store.contains(&root_id));
    match repo.store.get(&cid).unwrap() {
        Object::Commit(cd) => assert!(cd.tree.same(&root_id)),
        _ => panic!("the head must name a commit"),
    }
}

#[test]
fn nested_directories_become_subtrees() {
    let mut repo = fresh_repo();
    let wt = WorkTree {
        files: vec![file("dir/x", "1"), file("dir/y", "2"), file("top", "3")],
        dirs: vec![bytes("dir")],
    };
    repo.stage_all(&wt).unwrap();
    let cid = repo.commit(bytes("nest"), sig("alice")).unwrap();

    // The subtree for "dir" holds blob entries named by the stripped paths.
    let sub = Object::Tree(vec![
        TreeEntry {
            name: bytes("x"),
            mode: MODE_FILE,
            id: object_id(&Object::Blob(bytes("1"))),
            kind: EntryKind::Blob,
        },
        TreeEntry {
            name: bytes("y"),
            mode: MODE_FILE,
            id: object_id(&Object::Blob(bytes("2"))),
            kind: EntryKind::Blob,
        },
    ]);
    let sub_id = object_id(&sub);
    assert!(repo.store.contains(&sub_id));

    // The root tree holds the subtree entry, then the plain file.
    let root = Object::Tree(vec![
        TreeEntry { name: bytes("dir"), mode: MODE_DIR, id: sub_id.dup(), kind: EntryKind::Tree },
        TreeEntry {
            name: bytes("top"),
            mode: MODE_FILE,
            id: object_id(&Object::Blob(bytes("3"))),
            kind: EntryKind::Blob,
        },
    ]);
    let root_id = object_id(&root);
    assert!(repo.store.contains(&root_id));

    match repo.store.get(&cid).unwrap() {
        Object::Commit(cd) => assert!(cd.tree.same(&root_id)),
        _ => panic!("the head must name a commit"),
    }
}

#[test]
fn hidden_entries_are_excluded_at_depth_zero() {
    assert!(!is_path_included(&bytes(".vc"), true));
    assert!(!is_path_included(&bytes(".hidden/x"), true));
    assert!(is_path_included(&bytes("a"), true));
    assert!(is_path_included(&bytes("b/c"), true));
    assert!(is_path_included(&bytes(".vc"), false));

    let mut repo = fresh_repo();
    let wt = WorkTree {
        files: vec![file(".hidden/x", "secret"), file("a", "1"), file("b/c", "2")],
        dirs: Vec::new(),
    };
    repo.stage_all(&wt).unwrap();
    assert_eq!(repo.status(), vec![bytes("a"), bytes("b/c")]);
}

#[test]
fn object_id_matches_sha256_of_serialization() {
    // The id of raw bytes is their SHA-256 digest, not the bytes themselves.
    let data = bytes("abc");
    let id = ObjectId::for_bytes(&data);
    let expected = sha2::Sha256::digest(b"abc");
    assert_eq!(id.as_bytes().as_slice(), expected.as_slice());
    assert_ne!(id.as_bytes(), &data);
}

#[test]
fn digest_of_empty_input_is_the_known_constant() {
    let id = ObjectId::for_bytes(&Vec::new());
    let expected: Vec<u8> = vec![
        0xe3, 0xb0, 0xc4, 0x42, 0x98, 0xfc, 0x1c, 0x14, 0x9a, 0xfb, 0xf4, 0xc8, 0x99, 0x6f,
        0xb9, 0x24, 0x27, 0xae, 0x41, 0xe4, 0x64, 0x9b, 0x93, 0x4c, 0xa4, 0x95, 0x99, 0x1b,
        0x78, 0x52, 0xb8, 0x55,
    ];
    assert_eq!(id.as_bytes(), &expected);
}

#[test]
fn parse_is_the_inverse_of_serialize() {
    let blob = Object::Blob(bytes("hello"));
    let parsed = parse_object(&serialize_object(&blob)).unwrap();
    match &parsed {
        Object::Blob(d) => assert_eq!(d, &bytes("hello")),
        _ => panic!("a blob must parse back as a blob"),
    }
    assert!(object_id(&parsed).same(&object_id(&blob)));

    let tree = Object::Tree(vec![TreeEntry {
        name: bytes("a.txt"),
        mode: MODE_FILE,
        id: object_id(&blob),
        kind: EntryKind::Blob,
    }]);
    let parsed = parse_object(&serialize_object(&tree)).unwrap();
    match &parsed {
        Object::Tree(es) => {
            assert_eq!(es.len(), 1);
            assert_eq!(es[0].name, bytes("a.txt"));
            assert_eq!(es[0].mode, MODE_FILE);
            assert!(es[0].id.same(&object_id(&blob)));
            assert_eq!(es[0].kind, EntryKind::Blob);
        }
        _ => panic!("a tree must parse back as a tree"),
    }
    assert!(object_id(&parsed).same(&object_id(&tree)));

    let commit = Object::Commit(CommitData {
        tree: object_id(&tree),
        parents: vec![object_id(&blob)],
        author: sig("alice"),
        committer: sig("alice"),
        message: bytes("msg"),
    });
    let parsed = parse_object(&serialize_object(&commit)).unwrap();
    match &parsed {
        Object::Commit(cd) => {
            assert!(cd.tree.same(&object_id(&tree)));
            assert_eq!(cd.parents.len(), 1);
            assert!(cd.parents[0].same(&object_id(&blob)));
            assert_eq!(cd.author.name, bytes("alice"));
            assert_eq!(cd.author.timestamp, 1);
            assert_eq!(cd.message, bytes("msg"));
        }
        _ => panic!("a commit must parse back as a commit"),
    }
    assert!(object_id(&parsed).same(&object_id(&commit)));
}

#[test]
fn load_object_rejects_tampered_or_truncated_bytes() {
    let obj = Object::Blob(bytes("payload"));
    let good = serialize_object(&obj);
    let id = object_id(&obj);
    load_object(&id, &good).unwrap();

    // Flipping a content byte still parses but re-hashes differently.
    let mut flipped = good.clone();
    let last = flipped.len() - 1;
    flipped[last] ^= 1;
    match load_object(&id, &flipped) {
        Err(Error::Corrupt) => {}
        _ => panic!("tampered bytes must be Corrupt"),
    }

    // Truncated bytes no longer parse at all.
    let mut short = good.clone();
    short.pop();
    match load_object(&id, &short) {
        Err(Error::Corrupt) => {}
        _ => panic!("truncated bytes must be Corrupt"),
    }
}

#[test]
fn error_kinds_have_stable_names() {
    assert_eq!(Error::NotFound.name(), "not found");
    assert_eq!(Error::AlreadyExists.name(), "already exists");
    assert_eq!(Error::Corrupt.name(), "corrupt");
    assert_eq!(Error::UnbornBranch.name(), "unborn branch");
    assert_eq!(Error::PathNotFound.name(), "path not found");
    assert_eq!(Error::IoFailure.name(), "io failure");
    assert_eq!(Error::InvalidParents.name(), "invalid parents");
}
