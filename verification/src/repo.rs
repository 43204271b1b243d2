//! The repository: the object store, the staging index and the commit graph
//! composed behind stage, commit, status and history operations. The working
//! tree itself is handed in as a plain value by whatever reads the
//! filesystem; the core never touches a disk.

use vstd::prelude::*;
use crate::error::Error;
use crate::index::Index;
use crate::index::IndexEntryV;
use crate::index::MODE_FILE;
use crate::index::staged_entry;
use crate::index::drop_conflicting;
use crate::index::upsert_spec;
use crate::tree::write_tree_spec;
use crate::object::CommitData;
use crate::object::ObjectV;
use crate::object::Signature;
use crate::object::SignatureV;
use crate::object::copy_sig;
use crate::oid::ObjectId;
use crate::oid::bytes_eq;
use crate::oid::copy_bytes;
use crate::refs::CommitGraph;
use crate::refs::GraphStep;
use crate::refs::RefTargetV;
use crate::refs::graph_commit_spec;
use crate::refs::head_name;
use crate::refs::head_name_vec;
use crate::refs::history;
use crate::refs::history_spec;
use crate::refs::init_refs;
use crate::refs::resolve_spec;
use crate::store::ObjectStore;
use crate::store::collides;
use crate::store::put_map;

verus! {

/// One regular file of the working tree: its repository-relative path and
/// its content bytes.
pub struct FileRec {
    pub path: Vec<u8>,
    pub data: Vec<u8>,
}

/// The mathematical value of a working-tree file.
#[verifier::ext_equal]
pub ghost struct FileRecV {
    pub path: Seq<u8>,
    pub data: Seq<u8>,
}

impl View for FileRec {
    type V = FileRecV;

    open spec fn view(&self) -> FileRecV {
        FileRecV { path: self.path@, data: self.data@ }
    }
}

/// A snapshot of the working tree, as the filesystem collaborator reports
/// it: the regular files with their contents, and the directory paths.
pub struct WorkTree {
    pub files: Vec<FileRec>,
    pub dirs: Vec<Vec<u8>>,
}

/// The mathematical value of a working-tree snapshot.
#[verifier::ext_equal]
pub ghost struct WorkTreeV {
    pub files: Seq<FileRecV>,
    pub dirs: Seq<Seq<u8>>,
}

impl View for WorkTree {
    type V = WorkTreeV;

    open spec fn view(&self) -> WorkTreeV {
        WorkTreeV {
            files: self.files@.map_values(|f: FileRec| f@),
            dirs: self.dirs@.map_values(|d: Vec<u8>| d@),
        }
    }
}

/// The content of the first file recorded at `p`, if any.
pub open spec fn file_at_in(files: Seq<FileRecV>, p: Seq<u8>) -> Option<Seq<u8>>
    decreases files.len(),
{
    if files.len() == 0 {
        None
    } else if files[0].path == p {
        Some(files[0].data)
    } else {
        file_at_in(files.drop_first(), p)
    }
}

/// The content of the regular file at `p` in the working tree, if any.
pub open spec fn file_at(w: WorkTreeV, p: Seq<u8>) -> Option<Seq<u8>> {
    file_at_in(w.files, p)
}

proof fn lemma_file_at_skip(files: Seq<FileRecV>, p: Seq<u8>, i: int)
    requires
        0 <= i <= files.len(),
        forall|j: int| 0 <= j < i ==> files[j].path != p,
    ensures
        file_at_in(files, p) == file_at_in(files.skip(i), p),
    decreases i,
{
    if i == 0 {
        assert(files.skip(0) =~= files);
    } else {
        assert(files[0].path != p);
        lemma_file_at_skip(files.drop_first(), p, i - 1);
        assert(files.drop_first().skip(i - 1) =~= files.skip(i));
        assert forall|j: int| 0 <= j < i - 1 implies files.drop_first()[j].path != p by {
            assert(files.drop_first()[j] == files[j + 1]);
        }
    }
}

impl WorkTree {
    /// A snapshot with no files and no directories.
    pub fn new() -> (r: WorkTree)
        ensures
            r@.files == Seq::<FileRecV>::empty(),
            r@.dirs == Seq::<Seq<u8>>::empty(),
    {
        let r = WorkTree { files: Vec::new(), dirs: Vec::new() };
        proof {
            assert(r@.files =~= Seq::<FileRecV>::empty());
            assert(r@.dirs =~= Seq::<Seq<u8>>::empty());
        }
        r
    }

    /// The content of the regular file at `path`, if the snapshot has one.
    pub fn find_file(&self, path: &Vec<u8>) -> (r: Option<Vec<u8>>)
        ensures
            match r {
                Some(d) => file_at(self@, path@) == Some(d@),
                None => file_at(self@, path@) is None,
            },
    {
        let ghost fv = self@.files;
        let mut i: usize = 0;
        while i < self.files.len()
            invariant
                i <= self.files@.len(),
                fv == self@.files,
                fv.len() == self.files@.len(),
                forall|j: int| 0 <= j < i ==> fv[j].path != path@,
            decreases self.files@.len() - i,
        {
            if bytes_eq(&self.files[i].path, path) {
                proof {
                    lemma_file_at_skip(fv, path@, i as int);
                    assert(fv.skip(i as int)[0] == fv[i as int]);
                }
                return Some(copy_bytes(&self.files[i].data));
            }
            i = i + 1;
        }
        proof {
            lemma_file_at_skip(fv, path@, fv.len() as int);
            assert(fv.skip(fv.len() as int) =~= Seq::<FileRecV>::empty());
        }
        None
    }
}

// ---------------------------------------------------------------------------
// The directory-walk policy.
// ---------------------------------------------------------------------------

/// The one walk policy of the core: with `skip_hidden` set, paths whose
/// first byte is a dot, the reserved prefix of repository metadata at depth
/// zero, are excluded; everything else is included.
pub open spec fn path_included(p: Seq<u8>, skip_hidden: bool) -> bool {
    !(skip_hidden && p.len() > 0 && p[0] == 46)
}

/// Decides the walk policy for one path.
pub fn is_path_included(p: &Vec<u8>, skip_hidden: bool) -> (r: bool)
    ensures
        r == path_included(p@, skip_hidden),
{
    !(skip_hidden && p.len() > 0 && p[0] == 46)
}

/// The paths the hidden-entry policy admits, in working-tree order.
pub open spec fn visible_list(files: Seq<FileRecV>) -> Seq<Seq<u8>>
    decreases files.len(),
{
    if files.len() == 0 {
        Seq::empty()
    } else {
        let rest = visible_list(files.drop_last());
        if path_included(files.last().path, true) {
            rest + seq![files.last().path]
        } else {
            rest
        }
    }
}

// ---------------------------------------------------------------------------
// Staging many paths.
// ---------------------------------------------------------------------------

/// What staging a list of paths does, path by path from the front: a path
/// with no regular file behind it is skipped silently; one with a file
/// stages its blob and entry, replacing whatever staged entry it shadows
/// or is shadowed by; only a corrupt store slot stops the walk.
pub open spec fn stage_many_spec(
    x: Seq<IndexEntryV>,
    s: Map<Seq<u8>, ObjectV>,
    w: WorkTreeV,
    paths: Seq<Seq<u8>>,
) -> Result<(Seq<IndexEntryV>, Map<Seq<u8>, ObjectV>), Error>
    decreases paths.len(),
{
    if paths.len() == 0 {
        Ok((x, s))
    } else {
        match file_at(w, paths[0]) {
            None => stage_many_spec(x, s, w, paths.drop_first()),
            Some(d) => {
                if collides(s, ObjectV::Blob(d)) {
                    Err(Error::Corrupt)
                } else {
                    stage_many_spec(
                        upsert_spec(
                            drop_conflicting(x, paths[0]),
                            staged_entry(paths[0], d, MODE_FILE),
                        ),
                        put_map(s, ObjectV::Blob(d)),
                        w,
                        paths.drop_first(),
                    )
                }
            }
        }
    }
}

/// What a whole-repository commit does: freeze the index into trees, pick
/// the current head as sole parent (none on an unborn branch), and run the
/// commit step of the graph with the author also acting as committer.
pub open spec fn repo_commit_spec(
    x: Seq<IndexEntryV>,
    s: Map<Seq<u8>, ObjectV>,
    g: Map<Seq<u8>, RefTargetV>,
    author: SignatureV,
    message: Seq<u8>,
    fuel: nat,
) -> Result<GraphStep, Error> {
    match write_tree_spec(s, x) {
        Ok(t) => {
            match resolve_spec(g, head_name(), fuel) {
                Ok(h) => graph_commit_spec(t.0, g, t.1, seq![h], author, author, message, fuel),
                Err(e) => {
                    if e == Error::UnbornBranch {
                        graph_commit_spec(t.0, g, t.1, Seq::empty(), author, author, message, fuel)
                    } else {
                        Err(e)
                    }
                }
            }
        }
        Err(e) => Err(e),
    }
}

/// A repository handle: the object store, the staging index and the commit
/// graph it is composed of.
pub struct Repository {
    pub store: ObjectStore,
    pub index: Index,
    pub graph: CommitGraph,
}

impl Repository {
    /// Creates a fresh repository: an empty store, an empty index and an
    /// unborn head. Where a repository already exists, nothing is created
    /// or touched and `AlreadyExists` is reported.
    pub fn init(existing: &Option<Repository>) -> (r: Result<Repository, Error>)
        ensures
            existing is Some ==> (r matches Err(e) && e == Error::AlreadyExists),
            existing is None ==> (r matches Ok(repo) && repo.store@ == Map::<
                Seq<u8>,
                ObjectV,
            >::empty() && repo.index@ == Seq::<IndexEntryV>::empty() && repo.graph@ == init_refs()
                && repo.graph.fuel() == 1),
    {
        match existing {
            Some(_) => Err(Error::AlreadyExists),
            None => Ok(
                Repository {
                    store: ObjectStore::new(),
                    index: Index::new(),
                    graph: CommitGraph::new(),
                },
            ),
        }
    }

    /// Opens the repository found at a location, and reports `NotFound`
    /// where none exists.
    pub fn open(existing: Option<Repository>) -> (r: Result<Repository, Error>)
        ensures
            existing matches Some(repo) ==> r matches Ok(opened) && opened == repo,
            existing is None ==> (r matches Err(e) && e == Error::NotFound),
    {
        match existing {
            Some(repo) => Ok(repo),
            None => Err(Error::NotFound),
        }
    }

    /// Stages one path, reading its content from the working tree; a path
    /// with no regular file behind it is refused with `PathNotFound`.
    pub fn stage_file(&mut self, wt: &WorkTree, path: &Vec<u8>) -> (r: Result<(), Error>)
        ensures
            file_at(wt@, path@) is None ==> (r matches Err(e) && e == Error::PathNotFound
                && final(self).index@ == old(self).index@ && final(self).store@ == old(
                self,
            ).store@),
            file_at(wt@, path@) matches Some(d) ==> ({
                &&& !collides(old(self).store@, ObjectV::Blob(d)) ==> (r matches Ok(u)
                    && final(self).store@ == put_map(old(self).store@, ObjectV::Blob(d))
                    && final(self).index@ == upsert_spec(
                    drop_conflicting(old(self).index@, path@),
                    staged_entry(path@, d, MODE_FILE),
                ))
                &&& collides(old(self).store@, ObjectV::Blob(d)) ==> (r matches Err(e) && e
                    == Error::Corrupt && final(self).index@ == old(self).index@
                    && final(self).store@ == old(self).store@)
            }),
            final(self).graph@ == old(self).graph@,
            final(self).graph.fuel() == old(self).graph.fuel(),
    {
        match wt.find_file(path) {
            None => Err(Error::PathNotFound),
            Some(d) => self.index.stage(&mut self.store, copy_bytes(path), d, MODE_FILE),
        }
    }

    /// Stages each listed path that the working tree holds as a regular
    /// file; directories and missing paths are skipped silently, so one bad
    /// entry never aborts a bulk operation.
    pub fn stage_paths(&mut self, wt: &WorkTree, paths: &Vec<Vec<u8>>) -> (r: Result<(), Error>)
        ensures
            ({
                let spec_r = stage_many_spec(
                    old(self).index@,
                    old(self).store@,
                    wt@,
                    paths@.map_values(|p: Vec<u8>| p@),
                );
                &&& (r matches Ok(u) ==> (spec_r matches Ok(t) && final(self).index@ == t.0
                    && final(self).store@ == t.1))
                &&& (r matches Err(e) ==> spec_r == Err::<
                    (Seq<IndexEntryV>, Map<Seq<u8>, ObjectV>),
                    Error,
                >(e))
            }),
            old(self).store@.submap_of(final(self).store@),
            final(self).graph@ == old(self).graph@,
            final(self).graph.fuel() == old(self).graph.fuel(),
    {
        let ghost w = wt@;
        let ghost pv = paths@.map_values(|p: Vec<u8>| p@);
        let ghost full = stage_many_spec(old(self).index@, old(self).store@, w, pv);
        proof {
            assert(pv.skip(0) =~= pv);
        }
        let mut i: usize = 0;
        while i < paths.len()
            invariant
                i <= paths@.len(),
                w == wt@,
                pv == paths@.map_values(|p: Vec<u8>| p@),
                pv.len() == paths@.len(),
                full == stage_many_spec(old(self).index@, old(self).store@, w, pv),
                full == stage_many_spec(self.index@, self.store@, w, pv.skip(i as int)),
                old(self).store@.submap_of(self.store@),
                self.graph@ == old(self).graph@,
                self.graph.fuel() == old(self).graph.fuel(),
            decreases paths@.len() - i,
        {
            proof {
                assert(pv.skip(i as int)[0] == pv[i as int]);
                assert(pv.skip(i as int).drop_first() =~= pv.skip(i as int + 1));
            }
            match wt.find_file(&paths[i]) {
                None => {}
                Some(d) => {
                    let p = copy_bytes(&paths[i]);
                    let ghost dv = d@;
                    let ghost ms = self.store@;
                    match self.index.stage(&mut self.store, p, d, MODE_FILE) {
                        Ok(_) => {
                            proof {
                                crate::tree::lemma_put_map_monotone(ms, ObjectV::Blob(dv));
                                vstd::map_lib::lemma_submap_of_trans(
                                    old(self).store@,
                                    ms,
                                    self.store@,
                                );
                            }
                        }
                        Err(e) => {
                            return Err(e);
                        }
                    }
                }
            }
            i = i + 1;
        }
        proof {
            assert(pv.skip(pv.len() as int) =~= Seq::<Seq<u8>>::empty());
        }
        Ok(())
    }

    /// Walks the working tree under the hidden-entry policy and stages
    /// every admitted file.
    pub fn stage_all(&mut self, wt: &WorkTree) -> (r: Result<(), Error>)
        ensures
            ({
                let spec_r = stage_many_spec(
                    old(self).index@,
                    old(self).store@,
                    wt@,
                    visible_list(wt@.files),
                );
                &&& (r matches Ok(u) ==> (spec_r matches Ok(t) && final(self).index@ == t.0
                    && final(self).store@ == t.1))
                &&& (r matches Err(e) ==> spec_r == Err::<
                    (Seq<IndexEntryV>, Map<Seq<u8>, ObjectV>),
                    Error,
                >(e))
            }),
            old(self).store@.submap_of(final(self).store@),
            final(self).graph@ == old(self).graph@,
            final(self).graph.fuel() == old(self).graph.fuel(),
    {
        let ghost fv = wt@.files;
        let mut list: Vec<Vec<u8>> = Vec::new();
        let mut i: usize = 0;
        while i < wt.files.len()
            invariant
                i <= wt.files@.len(),
                fv == wt@.files,
                fv.len() == wt.files@.len(),
                list@.map_values(|p: Vec<u8>| p@) == visible_list(fv.take(i as int)),
            decreases wt.files@.len() - i,
        {
            proof {
                assert(fv.take(i as int + 1).drop_last() =~= fv.take(i as int));
                assert(fv.take(i as int + 1).last() == fv[i as int]);
            }
            if is_path_included(&wt.files[i].path, true) {
                list.push(copy_bytes(&wt.files[i].path));
                proof {
                    assert(list@.map_values(|p: Vec<u8>| p@) =~= visible_list(
                        fv.take(i as int),
                    ) + seq![fv[i as int].path]);
                }
            }
            i = i + 1;
        }
        proof {
            assert(fv.take(fv.len() as int) =~= fv);
        }
        self.stage_paths(wt, &list)
    }

    /// Freezes the index into a tree, commits it with the current head as
    /// sole parent (or none on an unborn branch), moves the branch, and
    /// clears the index. A failure after the tree is written leaves the
    /// index exactly as it was, so a retry stages nothing twice: object
    /// writes are idempotent.
    pub fn commit(&mut self, message: Vec<u8>, author: Signature) -> (r: Result<ObjectId, Error>)
        ensures
            ({
                let spec_r = repo_commit_spec(
                    old(self).index@,
                    old(self).store@,
                    old(self).graph@,
                    author@,
                    message@,
                    old(self).graph.fuel(),
                );
                &&& (r matches Ok(cid) ==> (spec_r matches Ok(t) && final(self).store@ == t.0
                    && final(self).graph@ == t.1 && cid@ == t.2 && final(self).index@ == Seq::<
                    IndexEntryV,
                >::empty()))
                &&& (r matches Err(e) ==> (spec_r == Err::<GraphStep, Error>(e)
                    && final(self).index@ == old(self).index@
                    && final(self).graph@ == old(self).graph@
                    && old(self).store@.submap_of(final(self).store@)))
            }),
            final(self).graph.fuel() >= old(self).graph.fuel(),
    {
        let committer = copy_sig(&author);
        let tid = match self.index.write_tree(&mut self.store) {
            Ok(t) => t,
            Err(e) => {
                return Err(e);
            }
        };
        let head_v = head_name_vec();
        let parents: Vec<ObjectId> = match self.graph.resolve(&head_v) {
            Ok(h) => {
                let mut v: Vec<ObjectId> = Vec::new();
                v.push(h);
                v
            }
            Err(e) => {
                match e {
                    Error::UnbornBranch => Vec::new(),
                    other => {
                        return Err(other);
                    }
                }
            }
        };
        proof {
            match resolve_spec(self.graph@, head_name(), self.graph.fuel()) {
                Ok(h) => {
                    assert(parents@.map_values(|p: ObjectId| p@) =~= seq![h]);
                }
                Err(_) => {
                    assert(parents@.map_values(|p: ObjectId| p@) =~= Seq::<Seq<u8>>::empty());
                }
            }
        }
        let cid = match self.graph.commit(
            &mut self.store,
            &tid,
            message,
            author,
            committer,
            parents,
        ) {
            Ok(c) => c,
            Err(e) => {
                return Err(e);
            }
        };
        self.index.clear();
        Ok(cid)
    }

    /// The staged paths, in index order.
    pub fn status(&self) -> (r: Vec<Vec<u8>>)
        ensures
            r@.len() == self.index@.len(),
            forall|i: int| 0 <= i < r@.len() ==> r@[i]@ == self.index@[i].path,
    {
        self.index.paths()
    }

    /// The history from the current head, newest commit first.
    pub fn log(&self) -> (r: Result<Vec<CommitData>, Error>)
        ensures
            ({
                let spec_r = match resolve_spec(self.graph@, head_name(), self.graph.fuel()) {
                    Ok(h) => history_spec(self.store@, h, self.store@.dom().len()),
                    Err(e) => Err(e),
                };
                &&& (r matches Ok(cs) ==> Ok::<Seq<crate::object::CommitV>, Error>(
                    cs@.map_values(|c: CommitData| c@),
                ) == spec_r)
                &&& (r matches Err(e) ==> Err::<Seq<crate::object::CommitV>, Error>(e) == spec_r)
            }),
    {
        let head_v = head_name_vec();
        match self.graph.resolve(&head_v) {
            Ok(h) => history(&self.store, &h),
            Err(e) => Err(e),
        }
    }
}

} // verus!
