//! The commit graph: named references that point, possibly through other
//! references, at commits, together with commit creation and history walks
//! over the object store.

use vstd::prelude::*;
use crate::error::Error;
use crate::object::CommitData;
use crate::object::CommitV;
use crate::object::Object;
use crate::object::ObjectKind;
use crate::object::ObjectV;
use crate::object::Signature;
use crate::object::SignatureV;
use crate::object::id_of;
use crate::oid::ObjectId;
use crate::oid::bytes_eq;
use crate::oid::copy_bytes;
use crate::store::ObjectStore;
use crate::store::collides;
use crate::store::put_map;

verus! {

/// What a reference points at: a commit id, or another reference by name.
pub enum RefTarget {
    Direct(ObjectId),
    Symbolic(Vec<u8>),
}

/// The mathematical value of a reference target.
#[verifier::ext_equal]
pub ghost enum RefTargetV {
    Direct(Seq<u8>),
    Symbolic(Seq<u8>),
}

impl View for RefTarget {
    type V = RefTargetV;

    open spec fn view(&self) -> RefTargetV {
        match self {
            RefTarget::Direct(id) => RefTargetV::Direct(id@),
            RefTarget::Symbolic(n) => RefTargetV::Symbolic(n@),
        }
    }
}

struct RefSlot {
    name: Vec<u8>,
    target: RefTarget,
}

spec fn ref_views(s: Seq<RefSlot>) -> Seq<(Seq<u8>, RefTargetV)> {
    s.map_values(|x: RefSlot| (x.name@, x.target@))
}

spec fn rmap_of(l: Seq<(Seq<u8>, RefTargetV)>) -> Map<Seq<u8>, RefTargetV>
    decreases l.len(),
{
    if l.len() == 0 {
        Map::empty()
    } else {
        rmap_of(l.drop_last()).insert(l.last().0, l.last().1)
    }
}

spec fn rkeys_unique(l: Seq<(Seq<u8>, RefTargetV)>) -> bool {
    forall|i: int, j: int| 0 <= i < j < l.len() ==> l[i].0 != l[j].0
}

proof fn lemma_rmap_of_index(l: Seq<(Seq<u8>, RefTargetV)>, i: int)
    requires
        rkeys_unique(l),
        0 <= i < l.len(),
    ensures
        rmap_of(l).contains_key(l[i].0),
        rmap_of(l)[l[i].0] == l[i].1,
    decreases l.len(),
{
    if i == l.len() - 1 {
    } else {
        assert(rkeys_unique(l.drop_last()));
        lemma_rmap_of_index(l.drop_last(), i);
        assert(l.drop_last()[i] == l[i]);
        assert(l[i].0 != l.last().0);
    }
}

proof fn lemma_rmap_of_missing(l: Seq<(Seq<u8>, RefTargetV)>, k: Seq<u8>)
    requires
        forall|i: int| 0 <= i < l.len() ==> l[i].0 != k,
    ensures
        !rmap_of(l).contains_key(k),
    decreases l.len(),
{
    if l.len() > 0 {
        lemma_rmap_of_missing(l.drop_last(), k);
    }
}

proof fn lemma_rmap_of_update(l: Seq<(Seq<u8>, RefTargetV)>, i: int, t: RefTargetV)
    requires
        rkeys_unique(l),
        0 <= i < l.len(),
    ensures
        rmap_of(l.update(i, (l[i].0, t))) == rmap_of(l).insert(l[i].0, t),
    decreases l.len(),
{
    let u = l.update(i, (l[i].0, t));
    if i == l.len() - 1 {
        assert(u.drop_last() =~= l.drop_last());
        assert(rmap_of(u) =~= rmap_of(l).insert(l[i].0, t));
    } else {
        assert(u.drop_last() =~= l.drop_last().update(i, (l[i].0, t)));
        assert(rkeys_unique(l.drop_last()));
        lemma_rmap_of_update(l.drop_last(), i, t);
        assert(l.drop_last()[i] == l[i]);
        assert(l[i].0 != l.last().0);
        assert(u.last() == l.last());
        assert(rmap_of(u) =~= rmap_of(l).insert(l[i].0, t));
    }
}

/// The name of the head reference.
pub open spec fn head_name() -> Seq<u8> {
    seq![72u8, 69u8, 65u8, 68u8]
}

/// The name of the default branch the head reference starts out pointing at.
pub open spec fn main_name() -> Seq<u8> {
    seq![109u8, 97u8, 105u8, 110u8]
}

/// The reference table of a freshly initialized repository: an unborn head,
/// symbolic to a default branch that no commit has created yet.
pub open spec fn init_refs() -> Map<Seq<u8>, RefTargetV> {
    Map::empty().insert(head_name(), RefTargetV::Symbolic(main_name()))
}

/// The head reference's name, as bytes.
pub fn head_name_vec() -> (r: Vec<u8>)
    ensures
        r@ == head_name(),
{
    let mut r: Vec<u8> = Vec::new();
    r.push(72u8);
    r.push(69u8);
    r.push(65u8);
    r.push(68u8);
    proof {
        assert(r@ =~= head_name());
    }
    r
}

/// The default branch's name, as bytes.
pub fn main_name_vec() -> (r: Vec<u8>)
    ensures
        r@ == main_name(),
{
    let mut r: Vec<u8> = Vec::new();
    r.push(109u8);
    r.push(97u8);
    r.push(105u8);
    r.push(110u8);
    proof {
        assert(r@ =~= main_name());
    }
    r
}

// ---------------------------------------------------------------------------
// Resolution.
// ---------------------------------------------------------------------------

/// Follows a target until a direct commit id: a symbolic hop to a missing
/// reference is an unborn branch, and running out of fuel means the table
/// holds a reference cycle.
pub open spec fn resolve_target(
    m: Map<Seq<u8>, RefTargetV>,
    t: RefTargetV,
    fuel: nat,
) -> Result<Seq<u8>, Error>
    decreases fuel,
{
    match t {
        RefTargetV::Direct(id) => Ok(id),
        RefTargetV::Symbolic(n) => {
            if !m.contains_key(n) {
                Err(Error::UnbornBranch)
            } else if fuel == 0 {
                Err(Error::Corrupt)
            } else {
                resolve_target(m, m[n], (fuel - 1) as nat)
            }
        }
    }
}

/// What resolving a name yields: `NotFound` for an unknown name, otherwise
/// the transitive resolution of its target.
pub open spec fn resolve_spec(m: Map<Seq<u8>, RefTargetV>, name: Seq<u8>, fuel: nat) -> Result<
    Seq<u8>,
    Error,
> {
    if !m.contains_key(name) {
        Err(Error::NotFound)
    } else {
        resolve_target(m, m[name], fuel)
    }
}

/// The name of the reference a commit moves: the head's symbolic target, or
/// the head itself when it points directly at a commit.
pub open spec fn branch_of(m: Map<Seq<u8>, RefTargetV>) -> Seq<u8> {
    if m.contains_key(head_name()) && (m[head_name()] is Symbolic) {
        m[head_name()]->Symbolic_0
    } else {
        head_name()
    }
}

/// The reference table: named, mutable pointers into the commit graph.
pub struct CommitGraph {
    refs: Vec<RefSlot>,
}

impl View for CommitGraph {
    type V = Map<Seq<u8>, RefTargetV>;

    closed spec fn view(&self) -> Map<Seq<u8>, RefTargetV> {
        rmap_of(ref_views(self.refs@))
    }
}

impl CommitGraph {
    #[verifier::type_invariant]
    spec fn inv(self) -> bool {
        rkeys_unique(ref_views(self.refs@))
    }

    /// The resolution depth the table supports; at least one hop is always
    /// available.
    pub closed spec fn fuel(&self) -> nat {
        self.refs@.len() as nat
    }

    /// A fresh table: an unborn head pointing at the default branch.
    pub fn new() -> (r: CommitGraph)
        ensures
            r@ == init_refs(),
            r.fuel() == 1,
    {
        let mut refs: Vec<RefSlot> = Vec::new();
        refs.push(RefSlot { name: head_name_vec(), target: RefTarget::Symbolic(main_name_vec()) });
        let r = CommitGraph { refs };
        proof {
            let l = ref_views(r.refs@);
            assert(l.len() == 1);
            assert(l[0].0 =~= head_name());
            assert(l[0].1 == RefTargetV::Symbolic(main_name()));
            assert(l.drop_last() =~= Seq::<(Seq<u8>, RefTargetV)>::empty());
            assert(rmap_of(l) == rmap_of(l.drop_last()).insert(l.last().0, l.last().1));
            assert(r@ =~~= init_refs());
        }
        r
    }

    fn find(&self, name: &Vec<u8>) -> (r: Option<usize>)
        ensures
            match r {
                Some(i) => i < self.refs@.len() && ref_views(self.refs@)[i as int].0 == name@,
                None => forall|i: int|
                    0 <= i < self.refs@.len() ==> ref_views(self.refs@)[i].0 != name@,
            },
    {
        let mut i: usize = 0;
        while i < self.refs.len()
            invariant
                i <= self.refs@.len(),
                forall|j: int| 0 <= j < i ==> ref_views(self.refs@)[j].0 != name@,
            decreases self.refs@.len() - i,
        {
            if bytes_eq(&self.refs[i].name, name) {
                return Some(i);
            }
            i = i + 1;
        }
        None
    }

    /// The target a name points at, if the name is known.
    pub fn lookup(&self, name: &Vec<u8>) -> (r: Option<RefTarget>)
        ensures
            match r {
                Some(t) => self@.contains_key(name@) && t@ == self@[name@],
                None => !self@.contains_key(name@),
            },
    {
        proof {
            use_type_invariant(&*self);
        }
        match self.find(name) {
            Some(i) => {
                proof {
                    lemma_rmap_of_index(ref_views(self.refs@), i as int);
                }
                match &self.refs[i].target {
                    RefTarget::Direct(id) => Some(RefTarget::Direct(id.dup())),
                    RefTarget::Symbolic(n) => Some(RefTarget::Symbolic(copy_bytes(n))),
                }
            }
            None => {
                proof {
                    lemma_rmap_of_missing(ref_views(self.refs@), name@);
                }
                None
            }
        }
    }

    /// Points `name` directly at `id`, adding the reference if it is new.
    pub fn set_ref(&mut self, name: Vec<u8>, id: ObjectId)
        ensures
            final(self)@ == old(self)@.insert(name@, RefTargetV::Direct(id@)),
            final(self).fuel() >= old(self).fuel(),
    {
        proof {
            use_type_invariant(&*self);
        }
        let ghost l0 = ref_views(self.refs@);
        let pos = self.find(&name);
        let mut refs: Vec<RefSlot> = Vec::new();
        std::mem::swap(&mut refs, &mut self.refs);
        let ghost tv = RefTargetV::Direct(id@);
        let ghost nv = name@;
        match pos {
            Some(i) => {
                refs.remove(i);
                refs.insert(i, RefSlot { name, target: RefTarget::Direct(id) });
                proof {
                    assert(l0[i as int].0 == nv);
                    assert(ref_views(refs@) =~= l0.update(i as int, (nv, tv)));
                    lemma_rmap_of_update(l0, i as int, tv);
                    assert(rkeys_unique(ref_views(refs@))) by {
                        assert forall|p: int, q: int|
                            0 <= p < q < ref_views(refs@).len() implies ref_views(refs@)[p].0
                            != ref_views(refs@)[q].0 by {
                            assert(ref_views(refs@)[p].0 == l0[p].0);
                            assert(ref_views(refs@)[q].0 == l0[q].0);
                        }
                    }
                }
            }
            None => {
                refs.push(RefSlot { name, target: RefTarget::Direct(id) });
                proof {
                    assert(ref_views(refs@).drop_last() =~= l0);
                    assert(ref_views(refs@).last() == (nv, tv));
                    assert(rkeys_unique(ref_views(refs@))) by {
                        assert forall|p: int, q: int|
                            0 <= p < q < ref_views(refs@).len() implies ref_views(refs@)[p].0
                            != ref_views(refs@)[q].0 by {
                            assert(ref_views(refs@)[p].0 == l0[p].0);
                            if q < l0.len() {
                                assert(ref_views(refs@)[q].0 == l0[q].0);
                            }
                        }
                    }
                }
            }
        }
        std::mem::swap(&mut refs, &mut self.refs);
    }

    /// Follows references from `name` until a commit id. An unknown starting
    /// name is `NotFound`; a chain that leaves the table is an unborn
    /// branch; a chain that cycles is `Corrupt`.
    pub fn resolve(&self, name: &Vec<u8>) -> (r: Result<ObjectId, Error>)
        ensures
            r matches Ok(id) ==> Ok::<Seq<u8>, Error>(id@) == resolve_spec(
                self@,
                name@,
                self.fuel(),
            ),
            r matches Err(e) ==> Err::<Seq<u8>, Error>(e) == resolve_spec(
                self@,
                name@,
                self.fuel(),
            ),
    {
        proof {
            use_type_invariant(&*self);
        }
        let start = match self.lookup(name) {
            Some(t) => t,
            None => {
                return Err(Error::NotFound);
            }
        };
        let mut cur = start;
        let mut fuel: usize = self.refs.len();
        proof {
            assert(resolve_target(self@, cur@, fuel as nat) == resolve_spec(
                self@,
                name@,
                self.fuel(),
            ));
        }
        loop
            invariant
                resolve_target(self@, cur@, fuel as nat) == resolve_spec(
                    self@,
                    name@,
                    self.fuel(),
                ),
            decreases fuel,
        {
            match cur {
                RefTarget::Direct(id) => {
                    return Ok(id);
                }
                RefTarget::Symbolic(n) => {
                    match self.lookup(&n) {
                        None => {
                            return Err(Error::UnbornBranch);
                        }
                        Some(t) => {
                            if fuel == 0 {
                                return Err(Error::Corrupt);
                            }
                            fuel = fuel - 1;
                            cur = t;
                        }
                    }
                }
            }
        }
    }

    /// Builds and persists a commit object over `tree`, then moves the
    /// current branch to it. History stays linear: the first commit takes no
    /// parents, and every later one exactly the current head.
    pub fn commit(
        &mut self,
        store: &mut ObjectStore,
        tree: &ObjectId,
        message: Vec<u8>,
        author: Signature,
        committer: Signature,
        parents: Vec<ObjectId>,
    ) -> (r: Result<ObjectId, Error>)
        ensures
            ({
                let spec_r = graph_commit_spec(
                    old(store)@,
                    old(self)@,
                    tree@,
                    parents@.map_values(|p: ObjectId| p@),
                    author@,
                    committer@,
                    message@,
                    old(self).fuel(),
                );
                &&& (r matches Ok(cid) ==> (spec_r matches Ok(t) && final(store)@ == t.0
                    && final(self)@ == t.1 && cid@ == t.2))
                &&& (r matches Err(e) ==> spec_r == Err::<GraphStep, Error>(e) && *final(store)
                    == *old(store) && *final(self) == *old(self))
            }),
            final(self).fuel() >= old(self).fuel(),
    {
        let ghost pv = parents@.map_values(|p: ObjectId| p@);
        if parents.len() > 1 {
            return Err(Error::InvalidParents);
        }
        let head_v = head_name_vec();
        let born: Option<ObjectId> = match self.resolve(&head_v) {
            Ok(id) => Some(id),
            Err(e) => {
                match e {
                    Error::UnbornBranch => None,
                    other => {
                        return Err(other);
                    }
                }
            }
        };
        match &born {
            Some(hid) => {
                if parents.len() != 1 {
                    return Err(Error::InvalidParents);
                }
                if !parents[0].same(hid) {
                    return Err(Error::InvalidParents);
                }
                match store.get(hid) {
                    Ok(o) => {
                        match o.kind() {
                            ObjectKind::Commit => {}
                            _ => {
                                return Err(Error::Corrupt);
                            }
                        }
                    }
                    Err(_) => {
                        return Err(Error::Corrupt);
                    }
                }
            }
            None => {
                if parents.len() != 0 {
                    return Err(Error::InvalidParents);
                }
            }
        }
        match store.get(tree) {
            Ok(o) => {
                match o.kind() {
                    ObjectKind::Tree => {}
                    _ => {
                        return Err(Error::NotFound);
                    }
                }
            }
            Err(_) => {
                return Err(Error::NotFound);
            }
        }
        let cd = CommitData { tree: tree.dup(), parents, author, committer, message };
        proof {
            assert(cd@ =~= commit_object(tree@, pv, author@, committer@, message@)->Commit_0);
        }
        let cid = match store.put(Object::Commit(cd)) {
            Ok(id) => id,
            Err(e) => {
                return Err(e);
            }
        };
        let branch: Vec<u8> = match self.lookup(&head_v) {
            Some(RefTarget::Symbolic(n)) => n,
            _ => head_v,
        };
        proof {
            assert(branch@ == branch_of(self@));
        }
        self.set_ref(branch, cid.dup());
        Ok(cid)
    }
}

/// The outcome of a successful commit step: the store contents, the
/// reference table, and the new commit's id.
pub type GraphStep = (Map<Seq<u8>, ObjectV>, Map<Seq<u8>, RefTargetV>, Seq<u8>);

/// The commit object built from a snapshot and its lineage.
pub open spec fn commit_object(
    tree: Seq<u8>,
    parents: Seq<Seq<u8>>,
    author: SignatureV,
    committer: SignatureV,
    message: Seq<u8>,
) -> ObjectV {
    ObjectV::Commit(
        CommitV { tree: tree, parents: parents, author: author, committer: committer, message: message },
    )
}

/// The write half of a commit, once lineage has been validated: the tree
/// must be stored, and the commit object must not collide.
pub open spec fn commit_finish(
    s: Map<Seq<u8>, ObjectV>,
    g: Map<Seq<u8>, RefTargetV>,
    tree: Seq<u8>,
    parents: Seq<Seq<u8>>,
    author: SignatureV,
    committer: SignatureV,
    message: Seq<u8>,
) -> Result<GraphStep, Error> {
    if !s.contains_key(tree) || !(s[tree] is Tree) {
        Err(Error::NotFound)
    } else {
        let o = commit_object(tree, parents, author, committer, message);
        if collides(s, o) {
            Err(Error::Corrupt)
        } else {
            Ok((put_map(s, o), g.insert(branch_of(g), RefTargetV::Direct(id_of(o))), id_of(o)))
        }
    }
}

/// What a commit step does, for every input: which error each bad input
/// earns, and the exact store, reference table and id a good one produces.
pub open spec fn graph_commit_spec(
    s: Map<Seq<u8>, ObjectV>,
    g: Map<Seq<u8>, RefTargetV>,
    tree: Seq<u8>,
    parents: Seq<Seq<u8>>,
    author: SignatureV,
    committer: SignatureV,
    message: Seq<u8>,
    fuel: nat,
) -> Result<GraphStep, Error> {
    if parents.len() > 1 {
        Err(Error::InvalidParents)
    } else {
        match resolve_spec(g, head_name(), fuel) {
            Err(e) => {
                if e == Error::UnbornBranch {
                    if parents.len() != 0 {
                        Err(Error::InvalidParents)
                    } else {
                        commit_finish(s, g, tree, parents, author, committer, message)
                    }
                } else {
                    Err(e)
                }
            }
            Ok(cur) => {
                if parents.len() != 1 || parents[0] != cur {
                    Err(Error::InvalidParents)
                } else if !s.contains_key(cur) || !(s[cur] is Commit) {
                    Err(Error::Corrupt)
                } else {
                    commit_finish(s, g, tree, parents, author, committer, message)
                }
            }
        }
    }
}

// ---------------------------------------------------------------------------
// History.
// ---------------------------------------------------------------------------

/// The history from a commit id: the commit itself, then the history of its
/// first parent, children always before their parents. A missing start is
/// `NotFound`; a non-commit object or a parent chain longer than the store
/// itself (a cycle) is `Corrupt`.
pub open spec fn history_spec(s: Map<Seq<u8>, ObjectV>, id: Seq<u8>, fuel: nat) -> Result<
    Seq<CommitV>,
    Error,
>
    decreases fuel,
{
    if !s.contains_key(id) {
        Err(Error::NotFound)
    } else if !(s[id] is Commit) {
        Err(Error::Corrupt)
    } else {
        let c = s[id]->Commit_0;
        if c.parents.len() == 0 {
            Ok(seq![c])
        } else if fuel == 0 {
            Err(Error::Corrupt)
        } else {
            match history_spec(s, c.parents[0], (fuel - 1) as nat) {
                Ok(rest) => Ok(seq![c] + rest),
                Err(e) => Err(e),
            }
        }
    }
}

spec fn hist_compose(prefix: Seq<CommitV>, r: Result<Seq<CommitV>, Error>) -> Result<
    Seq<CommitV>,
    Error,
> {
    match r {
        Ok(rest) => Ok(prefix + rest),
        Err(e) => Err(e),
    }
}

/// Walks parent links from `start` and returns the commits in
/// reverse-chronological topological order: each commit before its parent.
/// The walk is bounded by the number of stored objects, so a cycle in a
/// malformed graph ends in `Corrupt` rather than running forever.
pub fn history(store: &ObjectStore, start: &ObjectId) -> (r: Result<Vec<CommitData>, Error>)
    ensures
        r matches Ok(cs) ==> Ok::<Seq<CommitV>, Error>(cs@.map_values(|c: CommitData| c@))
            == history_spec(store@, start@, store@.dom().len()),
        r matches Err(e) ==> Err::<Seq<CommitV>, Error>(e) == history_spec(
            store@,
            start@,
            store@.dom().len(),
        ),
{
    let ghost full = history_spec(store@, start@, store@.dom().len());
    let mut out: Vec<CommitData> = Vec::new();
    let mut cur = start.dup();
    let mut fuel: usize = store.count();
    proof {
        assert(out@.map_values(|c: CommitData| c@) =~= Seq::<CommitV>::empty());
        assert(hist_compose(Seq::empty(), history_spec(store@, cur@, fuel as nat)) == full);
    }
    loop
        invariant
            hist_compose(
                out@.map_values(|c: CommitData| c@),
                history_spec(store@, cur@, fuel as nat),
            ) == full,
            full == history_spec(store@, start@, store@.dom().len()),
        decreases fuel,
    {
        let ghost outv = out@.map_values(|c: CommitData| c@);
        let obj = match store.get(&cur) {
            Ok(o) => o,
            Err(e) => {
                return Err(e);
            }
        };
        match obj {
            Object::Commit(c) => {
                if c.parents.len() == 0 {
                    out.push(c);
                    proof {
                        assert(out@.map_values(|x: CommitData| x@) =~= outv.push(
                            store@[cur@]->Commit_0,
                        ));
                        assert(outv.push(store@[cur@]->Commit_0) =~= outv + seq![
                            store@[cur@]->Commit_0,
                        ]);
                    }
                    return Ok(out);
                }
                if fuel == 0 {
                    return Err(Error::Corrupt);
                }
                fuel = fuel - 1;
                let next = c.parents[0].dup();
                let ghost cv = c@;
                out.push(c);
                proof {
                    assert(cv == store@[cur@]->Commit_0);
                    assert(out@.map_values(|x: CommitData| x@) =~= outv.push(cv));
                    let rest = history_spec(store@, cv.parents[0], fuel as nat);
                    assert(next@ == cv.parents[0]);
                    match rest {
                        Ok(tail) => {
                            assert(outv + (seq![cv] + tail) =~= outv.push(cv) + tail);
                        }
                        Err(_) => {}
                    }
                }
                cur = next;
            }
            _ => {
                return Err(Error::Corrupt);
            }
        }
    }
}

// ---------------------------------------------------------------------------
// Laws of resolution and history.
// ---------------------------------------------------------------------------

/// Law: on a freshly initialized reference table, resolving the head fails
/// with `UnbornBranch`, whatever resolution depth is allowed.
pub proof fn lemma_resolve_unborn(fuel: nat)
    ensures
        resolve_spec(init_refs(), head_name(), fuel) == Err::<Seq<u8>, Error>(Error::UnbornBranch),
{
    assert(head_name()[0] == 72);
    assert(main_name()[0] == 109);
    assert(head_name() != main_name());
    assert(init_refs().contains_key(head_name()));
    assert(init_refs()[head_name()] == RefTargetV::Symbolic(main_name()));
    assert(!init_refs().contains_key(main_name()));
}

/// Law: the first commit on a fresh reference table succeeds whenever its
/// tree is stored and the new commit object is collision-free, and resolving
/// the head afterwards yields exactly that commit's id.
pub proof fn lemma_commit_then_resolve(
    s: Map<Seq<u8>, ObjectV>,
    tree: Seq<u8>,
    author: SignatureV,
    committer: SignatureV,
    message: Seq<u8>,
    fuel: nat,
    fuel2: nat,
)
    requires
        s.contains_key(tree),
        s[tree] is Tree,
        !collides(s, commit_object(tree, Seq::empty(), author, committer, message)),
        fuel2 >= 1,
    ensures
        ({
            let r = graph_commit_spec(
                s,
                init_refs(),
                tree,
                Seq::empty(),
                author,
                committer,
                message,
                fuel,
            );
            &&& r matches Ok(t)
            &&& (r matches Ok(t) ==> resolve_spec(t.1, head_name(), fuel2) == Ok::<
                Seq<u8>,
                Error,
            >(t.2))
        }),
{
    lemma_resolve_unborn(fuel);
    let o = commit_object(tree, Seq::empty(), author, committer, message);
    let g0 = init_refs();
    assert(head_name()[0] == 72);
    assert(main_name()[0] == 109);
    assert(head_name() != main_name());
    assert(branch_of(g0) == main_name());
    let g1 = g0.insert(main_name(), RefTargetV::Direct(id_of(o)));
    assert(g1.contains_key(head_name()));
    assert(g1[head_name()] == RefTargetV::Symbolic(main_name()));
    assert(g1.contains_key(main_name()));
    assert(resolve_target(g1, RefTargetV::Direct(id_of(o)), (fuel2 - 1) as nat) == Ok::<
        Seq<u8>,
        Error,
    >(id_of(o)));
}

/// Law: three sequential commits from a fresh reference table leave a
/// history of exactly three commits, the newest first, each carrying the
/// previous commit as its sole parent and the first carrying none.
pub proof fn lemma_history_three_commits(
    s: Map<Seq<u8>, ObjectV>,
    t1: Seq<u8>,
    t2: Seq<u8>,
    t3: Seq<u8>,
    author: SignatureV,
    committer: SignatureV,
    ms1: Seq<u8>,
    ms2: Seq<u8>,
    ms3: Seq<u8>,
    f1: nat,
    f2: nat,
    f3: nat,
    hf: nat,
)
    requires
        s.contains_key(t1) && s[t1] is Tree,
        s.contains_key(t2) && s[t2] is Tree,
        s.contains_key(t3) && s[t3] is Tree,
        f2 >= 1,
        f3 >= 1,
        hf >= 2,
        ({
            let o1 = commit_object(t1, Seq::empty(), author, committer, ms1);
            let i1 = id_of(o1);
            let o2 = commit_object(t2, seq![i1], author, committer, ms2);
            let i2 = id_of(o2);
            let o3 = commit_object(t3, seq![i2], author, committer, ms3);
            let i3 = id_of(o3);
            &&& !s.contains_key(i1)
            &&& !s.contains_key(i2)
            &&& !s.contains_key(i3)
            &&& i2 != i1
            &&& i3 != i1
            &&& i3 != i2
        }),
    ensures
        ({
            let o1 = commit_object(t1, Seq::empty(), author, committer, ms1);
            let i1 = id_of(o1);
            let o2 = commit_object(t2, seq![i1], author, committer, ms2);
            let i2 = id_of(o2);
            let o3 = commit_object(t3, seq![i2], author, committer, ms3);
            let i3 = id_of(o3);
            let g0 = init_refs();
            let s1 = put_map(s, o1);
            let g1 = g0.insert(main_name(), RefTargetV::Direct(i1));
            let s2 = put_map(s1, o2);
            let g2 = g1.insert(main_name(), RefTargetV::Direct(i2));
            let s3 = put_map(s2, o3);
            let g3 = g2.insert(main_name(), RefTargetV::Direct(i3));
            &&& graph_commit_spec(s, g0, t1, Seq::empty(), author, committer, ms1, f1) == Ok::<
                GraphStep,
                Error,
            >((s1, g1, i1))
            &&& graph_commit_spec(s1, g1, t2, seq![i1], author, committer, ms2, f2) == Ok::<
                GraphStep,
                Error,
            >((s2, g2, i2))
            &&& graph_commit_spec(s2, g2, t3, seq![i2], author, committer, ms3, f3) == Ok::<
                GraphStep,
                Error,
            >((s3, g3, i3))
            &&& resolve_spec(g3, head_name(), f3) == Ok::<Seq<u8>, Error>(i3)
            &&& history_spec(s3, i3, hf) == Ok::<Seq<CommitV>, Error>(
                seq![o3->Commit_0, o2->Commit_0, o1->Commit_0],
            )
        }),
{
    let o1 = commit_object(t1, Seq::empty(), author, committer, ms1);
    let i1 = id_of(o1);
    let o2 = commit_object(t2, seq![i1], author, committer, ms2);
    let i2 = id_of(o2);
    let o3 = commit_object(t3, seq![i2], author, committer, ms3);
    let i3 = id_of(o3);
    let g0 = init_refs();
    let s1 = put_map(s, o1);
    let g1 = g0.insert(main_name(), RefTargetV::Direct(i1));
    let s2 = put_map(s1, o2);
    let g2 = g1.insert(main_name(), RefTargetV::Direct(i2));
    let s3 = put_map(s2, o3);
    let g3 = g2.insert(main_name(), RefTargetV::Direct(i3));
    assert(head_name()[0] == 72);
    assert(main_name()[0] == 109);
    assert(head_name() != main_name());

    // Trees are never commit ids here: the commit ids are absent from `s`
    // while the trees are present.
    assert(t1 != i1 && t1 != i2 && t1 != i3);
    assert(t2 != i1 && t2 != i2 && t2 != i3);
    assert(t3 != i1 && t3 != i2 && t3 != i3);

    // First commit: unborn head, no parents.
    lemma_resolve_unborn(f1);
    assert(branch_of(g0) == main_name());
    assert(!collides(s, o1));
    assert(graph_commit_spec(s, g0, t1, Seq::empty(), author, committer, ms1, f1) == Ok::<
        GraphStep,
        Error,
    >((s1, g1, i1)));

    // Second commit: head resolves to the first commit.
    assert(g1.contains_key(head_name()));
    assert(g1[head_name()] == RefTargetV::Symbolic(main_name()));
    assert(g1.contains_key(main_name()));
    assert(resolve_target(g1, RefTargetV::Direct(i1), (f2 - 1) as nat) == Ok::<Seq<u8>, Error>(i1));
    assert(resolve_spec(g1, head_name(), f2) == Ok::<Seq<u8>, Error>(i1));
    assert(seq![i1][0] == i1);
    assert(s1.contains_key(i1) && s1[i1] is Commit);
    assert(s1.contains_key(t2) && s1[t2] is Tree);
    assert(!collides(s1, o2));
    assert(branch_of(g1) == main_name());
    assert(graph_commit_spec(s1, g1, t2, seq![i1], author, committer, ms2, f2) == Ok::<
        GraphStep,
        Error,
    >((s2, g2, i2)));

    // Third commit: head resolves to the second commit.
    assert(g2.contains_key(head_name()));
    assert(g2[head_name()] == RefTargetV::Symbolic(main_name()));
    assert(g2.contains_key(main_name()));
    assert(resolve_target(g2, RefTargetV::Direct(i2), (f3 - 1) as nat) == Ok::<Seq<u8>, Error>(i2));
    assert(resolve_spec(g2, head_name(), f3) == Ok::<Seq<u8>, Error>(i2));
    assert(seq![i2][0] == i2);
    assert(s2.contains_key(i2) && s2[i2] is Commit);
    assert(s2.contains_key(t3) && s2[t3] is Tree);
    assert(!collides(s2, o3));
    assert(branch_of(g2) == main_name());
    assert(graph_commit_spec(s2, g2, t3, seq![i2], author, committer, ms3, f3) == Ok::<
        GraphStep,
        Error,
    >((s3, g3, i3)));

    // The head now resolves to the third commit.
    assert(g3.contains_key(head_name()));
    assert(g3[head_name()] == RefTargetV::Symbolic(main_name()));
    assert(g3.contains_key(main_name()));
    assert(resolve_target(g3, RefTargetV::Direct(i3), (f3 - 1) as nat) == Ok::<Seq<u8>, Error>(i3));
    assert(resolve_spec(g3, head_name(), f3) == Ok::<Seq<u8>, Error>(i3));

    // Walking history from the third commit visits all three, newest first.
    let c1 = o1->Commit_0;
    let c2 = o2->Commit_0;
    let c3 = o3->Commit_0;
    assert(s3.contains_key(i1) && s3[i1] == o1);
    assert(s3.contains_key(i2) && s3[i2] == o2);
    assert(s3.contains_key(i3) && s3[i3] == o3);
    assert(c1.parents.len() == 0);
    assert(c2.parents == seq![i1] && c2.parents[0] == i1);
    assert(c3.parents == seq![i2] && c3.parents[0] == i2);
    assert(history_spec(s3, i1, (hf - 2) as nat) == Ok::<Seq<CommitV>, Error>(seq![c1]));
    assert(history_spec(s3, i2, (hf - 1) as nat) == Ok::<Seq<CommitV>, Error>(seq![c2] + seq![c1]));
    assert(history_spec(s3, i3, hf) == Ok::<Seq<CommitV>, Error>(seq![c3] + (seq![c2] + seq![c1])));
    assert(seq![c3] + (seq![c2] + seq![c1]) =~= seq![c3, c2, c1]);
}

} // verus!
