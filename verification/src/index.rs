//! The staging index: a mutable table from working-tree path to staged blob,
//! kept strictly sorted in the tree order and free of file/directory
//! conflicts, so that a given set of staged entries has exactly one
//! representation and always freezes into canonical trees, whatever order
//! the staging calls came in.

use vstd::prelude::*;
use crate::error::Error;
use crate::object::Object;
use crate::object::ObjectV;
use crate::object::TreeEntry;
use crate::object::TreeEntryV;
use crate::object::id_of;
use crate::oid::ObjectId;
use crate::oid::bytes_eq;
use crate::oid::copy_bytes;
use crate::store::ObjectStore;
use crate::store::collides;
use crate::store::put_map;
use crate::tree::build_group;
use crate::tree::is_under;
use crate::tree::entry_names_sorted;
use crate::tree::lemma_build_entries_canonical;
use crate::tree::lemma_build_store_canonical;
use crate::tree::lemma_build_store_entries;
use crate::tree::lemma_put_map_monotone;
use crate::tree::under;
use crate::tree::write_tree_spec;

verus! {

/// The file-type and permission tag given to staged regular files.
pub const MODE_FILE: u32 = 0o100644;

/// One staged path: the blob it points at, its mode, and the staged size
/// kept for change detection.
pub struct IndexEntry {
    pub path: Vec<u8>,
    pub id: ObjectId,
    pub mode: u32,
    pub size: u64,
}

/// The mathematical value of an index entry.
#[verifier::ext_equal]
pub ghost struct IndexEntryV {
    pub path: Seq<u8>,
    pub id: Seq<u8>,
    pub mode: u32,
    pub size: u64,
}

impl View for IndexEntry {
    type V = IndexEntryV;

    open spec fn view(&self) -> IndexEntryV {
        IndexEntryV { path: self.path@, id: self.id@, mode: self.mode, size: self.size }
    }
}

// ---------------------------------------------------------------------------
// The tree order on paths.
// ---------------------------------------------------------------------------

/// How a path byte ranks: the separator sorts below every other byte, so
/// everything inside one directory stays together and directory names come
/// out in plain name order when trees are built.
pub open spec fn path_byte_key(b: u8) -> int {
    if b == 47 {
        -1
    } else {
        b as int
    }
}

/// The strict order trees are canonicalized in: byte-wise, with a proper
/// prefix first and the separator ranked below every other byte. On
/// separator-free byte sequences, such as entry names, it is plain
/// lexicographic byte order.
pub open spec fn tree_lt(a: Seq<u8>, b: Seq<u8>) -> bool
    decreases a.len(),
{
    if b.len() == 0 {
        false
    } else if a.len() == 0 {
        true
    } else if path_byte_key(a[0]) < path_byte_key(b[0]) {
        true
    } else if path_byte_key(a[0]) > path_byte_key(b[0]) {
        false
    } else {
        tree_lt(a.drop_first(), b.drop_first())
    }
}

/// No byte sequence is below itself.
pub proof fn lemma_tree_lt_irrefl(a: Seq<u8>)
    ensures
        !tree_lt(a, a),
    decreases a.len(),
{
    if a.len() > 0 {
        lemma_tree_lt_irrefl(a.drop_first());
    }
}

/// The order is asymmetric.
pub proof fn lemma_tree_lt_asym(a: Seq<u8>, b: Seq<u8>)
    requires
        tree_lt(a, b),
    ensures
        !tree_lt(b, a),
    decreases a.len(),
{
    if a.len() > 0 && b.len() > 0 && a[0] == b[0] {
        lemma_tree_lt_asym(a.drop_first(), b.drop_first());
    }
}

/// The order is connected: incomparable byte sequences are equal.
pub proof fn lemma_tree_lt_connex(a: Seq<u8>, b: Seq<u8>)
    requires
        !tree_lt(a, b),
        !tree_lt(b, a),
    ensures
        a == b,
    decreases a.len(),
{
    if a.len() == 0 || b.len() == 0 {
        assert(a =~= b);
    } else {
        assert(a[0] == b[0]);
        assert(!tree_lt(a.drop_first(), b.drop_first()));
        assert(!tree_lt(b.drop_first(), a.drop_first()));
        lemma_tree_lt_connex(a.drop_first(), b.drop_first());
        assert(a.len() == b.len());
        assert forall|k: int| 0 <= k < a.len() implies a[k] == b[k] by {
            if k > 0 {
                assert(a[k] == a.drop_first()[k - 1]);
                assert(b[k] == b.drop_first()[k - 1]);
            }
        }
        assert(a =~= b);
    }
}

/// The order is transitive.
pub proof fn lemma_tree_lt_trans(a: Seq<u8>, b: Seq<u8>, c: Seq<u8>)
    requires
        tree_lt(a, b),
        tree_lt(b, c),
    ensures
        tree_lt(a, c),
    decreases a.len(),
{
    if a.len() > 0 && b.len() > 0 && c.len() > 0 && a[0] == b[0] && b[0] == c[0] {
        lemma_tree_lt_trans(a.drop_first(), b.drop_first(), c.drop_first());
    }
}

/// Comparing after an equal prefix compares the remainders.
pub proof fn lemma_tree_lt_skip(a: Seq<u8>, b: Seq<u8>, i: int)
    requires
        0 <= i <= a.len(),
        i <= b.len(),
        forall|j: int| 0 <= j < i ==> a[j] == b[j],
    ensures
        tree_lt(a, b) == tree_lt(a.skip(i), b.skip(i)),
    decreases i,
{
    if i == 0 {
        assert(a.skip(0) =~= a);
        assert(b.skip(0) =~= b);
    } else {
        assert(a[0] == b[0]);
        assert(tree_lt(a, b) == tree_lt(a.drop_first(), b.drop_first()));
        lemma_tree_lt_skip(a.drop_first(), b.drop_first(), i - 1);
        assert(a.drop_first().skip(i - 1) =~= a.skip(i));
        assert(b.drop_first().skip(i - 1) =~= b.skip(i));
    }
}

/// Decides `tree_lt(a@, b@)`.
pub fn path_lt(a: &Vec<u8>, b: &Vec<u8>) -> (r: bool)
    ensures
        r == tree_lt(a@, b@),
{
    let mut i: usize = 0;
    while i < a.len() && i < b.len()
        invariant
            i <= a.len(),
            i <= b.len(),
            forall|j: int| 0 <= j < i ==> a@[j] == b@[j],
        decreases a.len() - i,
    {
        if a[i] != b[i] {
            let less = a[i] == 47 || (b[i] != 47 && a[i] < b[i]);
            proof {
                lemma_tree_lt_skip(a@, b@, i as int);
                assert(a@.skip(i as int)[0] == a@[i as int]);
                assert(b@.skip(i as int)[0] == b@[i as int]);
            }
            return less;
        }
        i = i + 1;
    }
    proof {
        lemma_tree_lt_skip(a@, b@, i as int);
    }
    a.len() < b.len()
}

/// A strictly path-sorted sequence of index entries.
pub open spec fn paths_sorted(s: Seq<IndexEntryV>) -> bool {
    forall|i: int, j: int| 0 <= i < j < s.len() ==> tree_lt(s[i].path, s[j].path)
}

/// No staged path lies inside a directory that another staged path names,
/// so no tree ever carries a file and a subtree under one name.
pub open spec fn conflict_free(s: Seq<IndexEntryV>) -> bool {
    forall|i: int, j: int|
        0 <= i < s.len() && 0 <= j < s.len() && i != j ==> !under(s[i].path, s[j].path)
}

/// The table with every entry shadowed by `p`, or shadowing it, dropped:
/// staging a path replaces whatever lay inside it or contained it.
pub open spec fn drop_conflicting(s: Seq<IndexEntryV>, p: Seq<u8>) -> Seq<IndexEntryV>
    decreases s.len(),
{
    if s.len() == 0 {
        s
    } else {
        let rest = drop_conflicting(s.drop_first(), p);
        if under(s[0].path, p) || under(p, s[0].path) {
            rest
        } else {
            seq![s[0]] + rest
        }
    }
}

proof fn lemma_drop_conflicting(s: Seq<IndexEntryV>, p: Seq<u8>)
    requires
        paths_sorted(s),
        conflict_free(s),
    ensures
        paths_sorted(drop_conflicting(s, p)),
        conflict_free(drop_conflicting(s, p)),
        forall|i: int|
            0 <= i < drop_conflicting(s, p).len() ==> s.contains(drop_conflicting(s, p)[i]),
        forall|i: int|
            0 <= i < drop_conflicting(s, p).len() ==> !under(drop_conflicting(s, p)[i].path, p)
                && !under(p, drop_conflicting(s, p)[i].path),
    decreases s.len(),
{
    if s.len() > 0 {
        let t = s.drop_first();
        assert(paths_sorted(t)) by {
            assert forall|a: int, b: int| 0 <= a < b < t.len() implies tree_lt(
                t[a].path,
                t[b].path,
            ) by {
                assert(t[a] == s[a + 1]);
                assert(t[b] == s[b + 1]);
            }
        }
        assert(conflict_free(t)) by {
            assert forall|a: int, b: int|
                0 <= a < t.len() && 0 <= b < t.len() && a != b implies !under(
                t[a].path,
                t[b].path,
            ) by {
                assert(t[a] == s[a + 1]);
                assert(t[b] == s[b + 1]);
            }
        }
        lemma_drop_conflicting(t, p);
        let rt = drop_conflicting(t, p);
        assert forall|i: int| 0 <= i < rt.len() implies s.contains(rt[i]) by {
            assert(t.contains(rt[i]));
            let k = choose|k: int| 0 <= k < t.len() && t[k] == rt[i];
            assert(s[k + 1] == rt[i]);
        }
        let d = drop_conflicting(s, p);
        if !(under(s[0].path, p) || under(p, s[0].path)) {
            assert(d == seq![s[0]] + rt);
            assert forall|a: int, b: int| 0 <= a < b < d.len() implies tree_lt(
                d[a].path,
                d[b].path,
            ) by {
                if a == 0 {
                    assert(d[b] == rt[b - 1]);
                    assert(s.contains(rt[b - 1]));
                    let k = choose|k: int| 0 <= k < t.len() && t[k] == rt[b - 1];
                    assert(t[k] == s[k + 1]);
                    assert(tree_lt(s[0].path, s[k + 1].path));
                } else {
                    assert(d[a] == rt[a - 1]);
                    assert(d[b] == rt[b - 1]);
                }
            }
            assert forall|a: int, b: int|
                0 <= a < d.len() && 0 <= b < d.len() && a != b implies !under(
                d[a].path,
                d[b].path,
            ) by {
                if a == 0 || b == 0 {
                    let o: int = if a == 0 {
                        b
                    } else {
                        a
                    };
                    assert(d[o] == rt[o - 1]);
                    let k = choose|k: int| 0 <= k < t.len() && t[k] == rt[o - 1];
                    assert(t[k] == s[k + 1]);
                    assert(!under(s[0].path, s[k + 1].path));
                    assert(!under(s[k + 1].path, s[0].path));
                } else {
                    assert(d[a] == rt[a - 1]);
                    assert(d[b] == rt[b - 1]);
                }
            }
        }
    }
}

/// Splicing `e` into an ordered, conflict-free table at a position cleared
/// of everything conflicting with `e` keeps the table conflict-free.
proof fn lemma_conflict_splice(s: Seq<IndexEntryV>, e: IndexEntryV, i: int, k: int)
    requires
        conflict_free(s),
        0 <= i <= k <= s.len(),
        k <= i + 1,
        forall|j: int| 0 <= j < s.len() ==> !under(s[j].path, e.path) && !under(e.path, s[j].path),
    ensures
        conflict_free(s.take(i) + seq![e] + s.skip(k)),
{
    let t = s.take(i) + seq![e] + s.skip(k);
    assert forall|p: int, q: int|
        0 <= p < t.len() && 0 <= q < t.len() && p != q implies !under(t[p].path, t[q].path) by {
        if p != i && q != i {
            let p0: int = if p < i {
                p
            } else {
                p - i - 1 + k
            };
            let q0: int = if q < i {
                q
            } else {
                q - i - 1 + k
            };
            assert(t[p] == s[p0]);
            assert(t[q] == s[q0]);
        } else {
            let o: int = if p == i {
                q
            } else {
                p
            };
            let o0: int = if o < i {
                o
            } else {
                o - i - 1 + k
            };
            assert(t[o] == s[o0]);
            assert(t[i] == e);
        }
    }
}

// ---------------------------------------------------------------------------
// The effect of staging and unstaging on the entry table.
// ---------------------------------------------------------------------------

/// The table after staging `e`: the entry with `e`'s path is replaced, or
/// `e` is placed at its sorted position.
pub open spec fn upsert_spec(s: Seq<IndexEntryV>, e: IndexEntryV) -> Seq<IndexEntryV>
    decreases s.len(),
{
    if s.len() == 0 {
        seq![e]
    } else if tree_lt(e.path, s[0].path) {
        seq![e] + s
    } else if e.path == s[0].path {
        seq![e] + s.drop_first()
    } else {
        seq![s[0]] + upsert_spec(s.drop_first(), e)
    }
}

/// The table after unstaging `p`: the entry with path `p` is dropped, and a
/// table without one is left as it is.
pub open spec fn remove_spec(s: Seq<IndexEntryV>, p: Seq<u8>) -> Seq<IndexEntryV>
    decreases s.len(),
{
    if s.len() == 0 {
        s
    } else if s[0].path == p {
        s.drop_first()
    } else {
        seq![s[0]] + remove_spec(s.drop_first(), p)
    }
}

proof fn lemma_upsert_insert_at(s: Seq<IndexEntryV>, e: IndexEntryV, i: int)
    requires
        paths_sorted(s),
        0 <= i <= s.len(),
        forall|j: int| 0 <= j < i ==> tree_lt(s[j].path, e.path),
        i < s.len() ==> tree_lt(e.path, s[i].path),
    ensures
        upsert_spec(s, e) == s.take(i) + seq![e] + s.skip(i),
    decreases i,
{
    if i == 0 {
        if s.len() == 0 {
            assert(upsert_spec(s, e) =~= s.take(0) + seq![e] + s.skip(0));
        } else {
            assert(tree_lt(e.path, s[0].path));
            assert(upsert_spec(s, e) =~= s.take(0) + seq![e] + s.skip(0));
        }
    } else {
        assert(tree_lt(s[0].path, e.path));
        lemma_tree_lt_asym(s[0].path, e.path);
        lemma_tree_lt_irrefl(s[0].path);
        assert(e.path != s[0].path);
        let t = s.drop_first();
        assert(paths_sorted(t)) by {
            assert forall|p: int, q: int| 0 <= p < q < t.len() implies tree_lt(
                t[p].path,
                t[q].path,
            ) by {
                assert(t[p] == s[p + 1]);
                assert(t[q] == s[q + 1]);
            }
        }
        assert forall|j: int| 0 <= j < i - 1 implies tree_lt(t[j].path, e.path) by {
            assert(t[j] == s[j + 1]);
        }
        assert(i - 1 < t.len() ==> tree_lt(e.path, t[i - 1].path));
        lemma_upsert_insert_at(t, e, i - 1);
        assert(seq![s[0]] + (t.take(i - 1) + seq![e] + t.skip(i - 1)) =~= s.take(i) + seq![e]
            + s.skip(i));
    }
}

proof fn lemma_upsert_update_at(s: Seq<IndexEntryV>, e: IndexEntryV, i: int)
    requires
        paths_sorted(s),
        0 <= i < s.len(),
        forall|j: int| 0 <= j < i ==> tree_lt(s[j].path, e.path),
        s[i].path == e.path,
    ensures
        upsert_spec(s, e) == s.take(i) + seq![e] + s.skip(i + 1),
    decreases i,
{
    if i == 0 {
        lemma_tree_lt_irrefl(e.path);
        assert(upsert_spec(s, e) =~= s.take(0) + seq![e] + s.skip(1));
    } else {
        assert(tree_lt(s[0].path, e.path));
        lemma_tree_lt_asym(s[0].path, e.path);
        lemma_tree_lt_irrefl(s[0].path);
        let t = s.drop_first();
        assert(paths_sorted(t)) by {
            assert forall|p: int, q: int| 0 <= p < q < t.len() implies tree_lt(
                t[p].path,
                t[q].path,
            ) by {
                assert(t[p] == s[p + 1]);
                assert(t[q] == s[q + 1]);
            }
        }
        assert forall|j: int| 0 <= j < i - 1 implies tree_lt(t[j].path, e.path) by {
            assert(t[j] == s[j + 1]);
        }
        assert(t[i - 1].path == e.path);
        lemma_upsert_update_at(t, e, i - 1);
        assert(seq![s[0]] + (t.take(i - 1) + seq![e] + t.skip(i)) =~= s.take(i) + seq![e] + s.skip(
            i + 1,
        ));
    }
}

proof fn lemma_remove_at(s: Seq<IndexEntryV>, p: Seq<u8>, i: int)
    requires
        paths_sorted(s),
        0 <= i < s.len(),
        s[i].path == p,
    ensures
        remove_spec(s, p) == s.take(i) + s.skip(i + 1),
    decreases i,
{
    if i == 0 {
        assert(remove_spec(s, p) =~= s.take(0) + s.skip(1));
    } else {
        assert(tree_lt(s[0].path, s[i].path));
        lemma_tree_lt_irrefl(s[0].path);
        assert(s[0].path != p);
        let t = s.drop_first();
        assert(paths_sorted(t)) by {
            assert forall|a: int, b: int| 0 <= a < b < t.len() implies tree_lt(
                t[a].path,
                t[b].path,
            ) by {
                assert(t[a] == s[a + 1]);
                assert(t[b] == s[b + 1]);
            }
        }
        assert(t[i - 1].path == p);
        lemma_remove_at(t, p, i - 1);
        assert(seq![s[0]] + (t.take(i - 1) + t.skip(i)) =~= s.take(i) + s.skip(i + 1));
    }
}

proof fn lemma_remove_absent(s: Seq<IndexEntryV>, p: Seq<u8>)
    requires
        forall|i: int| 0 <= i < s.len() ==> s[i].path != p,
    ensures
        remove_spec(s, p) == s,
    decreases s.len(),
{
    if s.len() > 0 {
        let t = s.drop_first();
        assert forall|i: int| 0 <= i < t.len() implies t[i].path != p by {
            assert(t[i] == s[i + 1]);
        }
        lemma_remove_absent(t, p);
        assert(seq![s[0]] + t =~= s);
    }
}

// ---------------------------------------------------------------------------
// The index itself.
// ---------------------------------------------------------------------------

/// The staging area: a strictly path-sorted table of staged entries.
pub struct Index {
    entries: Vec<IndexEntry>,
}

impl View for Index {
    type V = Seq<IndexEntryV>;

    closed spec fn view(&self) -> Seq<IndexEntryV> {
        self.entries@.map_values(|e: IndexEntry| e@)
    }
}

/// The root tree entries an entry table freezes into: plain file names
/// become blob entries, and the entries inside a common leading directory
/// collapse into one subtree entry.
pub open spec fn tree_entries_of(s: Seq<IndexEntryV>) -> Seq<TreeEntryV> {
    crate::tree::build_entries(s)
}

/// The tree object an entry table freezes into.
pub open spec fn tree_obj_of(s: Seq<IndexEntryV>) -> ObjectV {
    ObjectV::Tree(tree_entries_of(s))
}

/// The id of the tree an entry table freezes into.
pub open spec fn tree_id_of(s: Seq<IndexEntryV>) -> Seq<u8> {
    id_of(tree_obj_of(s))
}

/// The entry staged for a blob with content `data` at `path`.
pub open spec fn staged_entry(path: Seq<u8>, data: Seq<u8>, mode: u32) -> IndexEntryV {
    IndexEntryV {
        path: path,
        id: id_of(ObjectV::Blob(data)),
        mode: mode,
        size: data.len() as u64,
    }
}

impl Index {
    #[verifier::type_invariant]
    spec fn inv(self) -> bool {
        paths_sorted(self@) && conflict_free(self@)
    }

    /// An empty index.
    pub fn new() -> (r: Index)
        ensures
            r@ == Seq::<IndexEntryV>::empty(),
    {
        Index { entries: Vec::new() }
    }

    /// How many paths are staged.
    pub fn len(&self) -> (r: usize)
        ensures
            r == self@.len(),
    {
        self.entries.len()
    }

    /// The staged paths, in table order.
    pub fn paths(&self) -> (r: Vec<Vec<u8>>)
        ensures
            r@.len() == self@.len(),
            forall|i: int| 0 <= i < r@.len() ==> r@[i]@ == self@[i].path,
    {
        let mut r: Vec<Vec<u8>> = Vec::new();
        let mut i: usize = 0;
        while i < self.entries.len()
            invariant
                i <= self.entries@.len(),
                r@.len() == i,
                forall|j: int| 0 <= j < i ==> r@[j]@ == self@[j].path,
            decreases self.entries@.len() - i,
        {
            r.push(copy_bytes(&self.entries[i].path));
            i = i + 1;
        }
        r
    }

    /// Writes the blob for `data`, drops every staged entry that `path`
    /// shadows or that shadows it, then replaces or inserts the entry for
    /// `path`. Fails only when the store reports a corrupt slot, in which
    /// case neither the store nor the index changes.
    pub fn stage(&mut self, store: &mut ObjectStore, path: Vec<u8>, data: Vec<u8>, mode: u32) -> (r:
        Result<(), Error>)
        ensures
            !collides(old(store)@, ObjectV::Blob(data@)) ==> (r matches Ok(u) && final(store)@
                == put_map(old(store)@, ObjectV::Blob(data@)) && final(self)@ == upsert_spec(
                drop_conflicting(old(self)@, path@),
                staged_entry(path@, data@, mode),
            )),
            collides(old(store)@, ObjectV::Blob(data@)) ==> (r matches Err(e) && e
                == Error::Corrupt && *final(store) == *old(store) && final(self)@ == old(self)@),
            paths_sorted(final(self)@),
            paths_sorted(old(self)@),
            conflict_free(final(self)@),
            conflict_free(old(self)@),
    {
        proof {
            use_type_invariant(&*self);
        }
        let ghost s0 = self@;
        let ghost dv = data@;
        let ghost e = staged_entry(path@, dv, mode);
        let ghost sk = drop_conflicting(s0, path@);
        let size = data.len() as u64;
        let put_r = store.put(Object::Blob(data));
        let id = match put_r {
            Ok(id) => id,
            Err(e2) => {
                return Err(e2);
            }
        };
        let mut kept: Vec<IndexEntry> = Vec::new();
        let mut es: Vec<IndexEntry> = Vec::new();
        std::mem::swap(&mut es, &mut self.entries);
        proof {
            assert(kept@.map_values(|x: IndexEntry| x@) =~= Seq::<IndexEntryV>::empty());
            assert(es@.map_values(|x: IndexEntry| x@) =~= s0);
            assert(Seq::<IndexEntryV>::empty() + drop_conflicting(s0, path@) =~= sk);
        }
        while es.len() > 0
            invariant
                s0 == old(self)@,
                paths_sorted(s0),
                conflict_free(s0),
                sk == drop_conflicting(s0, path@),
                sk == kept@.map_values(|x: IndexEntry| x@) + drop_conflicting(
                    es@.map_values(|x: IndexEntry| x@),
                    path@,
                ),
            decreases es@.len(),
        {
            let ghost ev = es@.map_values(|x: IndexEntry| x@);
            let x = es.remove(0);
            proof {
                assert(es@.map_values(|x: IndexEntry| x@) =~= ev.drop_first());
                assert(x@ == ev[0]);
            }
            if !(is_under(&x.path, &path) || is_under(&path, &x.path)) {
                let ghost kv = kept@.map_values(|x: IndexEntry| x@);
                kept.push(x);
                proof {
                    assert(kept@.map_values(|x: IndexEntry| x@) =~= kv.push(ev[0]));
                    assert(kv.push(ev[0]) + drop_conflicting(ev.drop_first(), path@) =~= kv + (
                    seq![ev[0]] + drop_conflicting(ev.drop_first(), path@)));
                }
            }
        }
        proof {
            assert(es@.map_values(|x: IndexEntry| x@) =~= Seq::<IndexEntryV>::empty());
            assert(kept@.map_values(|x: IndexEntry| x@) =~= sk);
        }
        let mut i: usize = 0;
        while i < kept.len() && path_lt(&kept[i].path, &path)
            invariant
                i <= kept@.len(),
                s0 == old(self)@,
                paths_sorted(s0),
                conflict_free(s0),
                sk == drop_conflicting(s0, path@),
                kept@.map_values(|x: IndexEntry| x@) == sk,
                sk.len() == kept@.len(),
                forall|j: int| 0 <= j < i ==> tree_lt(sk[j].path, path@),
            decreases kept@.len() - i,
        {
            i = i + 1;
        }
        let updating = i < kept.len() && bytes_eq(&kept[i].path, &path);
        proof {
            lemma_drop_conflicting(s0, path@);
            if updating {
                assert forall|j: int|
                    i as int + 1 <= j < sk.len() implies tree_lt(e.path, sk[j].path) by {
                    assert(tree_lt(sk[i as int].path, sk[j].path));
                }
            } else if i < kept.len() {
                assert(!tree_lt(sk[i as int].path, e.path));
                assert(sk[i as int].path != e.path);
                if !tree_lt(e.path, sk[i as int].path) {
                    lemma_tree_lt_connex(sk[i as int].path, e.path);
                    assert(false);
                }
                assert forall|j: int| i as int <= j < sk.len() implies tree_lt(
                    e.path,
                    sk[j].path,
                ) by {
                    if j > i as int {
                        lemma_tree_lt_trans(e.path, sk[i as int].path, sk[j].path);
                    }
                }
            }
            assert forall|j: int| 0 <= j < sk.len() implies !under(sk[j].path, e.path) && !under(
                e.path,
                sk[j].path,
            ) by {
                assert(sk[j] == drop_conflicting(s0, path@)[j]);
            }
        }
        let en = IndexEntry { path, id, mode, size };
        proof {
            assert(en@ == e);
        }
        if updating {
            kept.remove(i);
            kept.insert(i, en);
            proof {
                lemma_upsert_update_at(sk, e, i as int);
                assert(kept@.map_values(|x: IndexEntry| x@) =~= sk.take(i as int) + seq![e]
                    + sk.skip(i as int + 1));
                lemma_sorted_splice(sk, e, i as int, i as int + 1);
                lemma_conflict_splice(sk, e, i as int, i as int + 1);
            }
        } else {
            kept.insert(i, en);
            proof {
                lemma_upsert_insert_at(sk, e, i as int);
                assert(kept@.map_values(|x: IndexEntry| x@) =~= sk.take(i as int) + seq![e]
                    + sk.skip(i as int));
                lemma_sorted_splice(sk, e, i as int, i as int);
                lemma_conflict_splice(sk, e, i as int, i as int);
            }
        }
        std::mem::swap(&mut kept, &mut self.entries);
        Ok(())
    }

    /// Drops the entry staged for `path`; a path that is not staged is
    /// silently left alone.
    pub fn unstage(&mut self, path: &Vec<u8>)
        ensures
            final(self)@ == remove_spec(old(self)@, path@),
            paths_sorted(final(self)@),
            paths_sorted(old(self)@),
            conflict_free(final(self)@),
            conflict_free(old(self)@),
    {
        proof {
            use_type_invariant(&*self);
        }
        let ghost s0 = self@;
        let mut i: usize = 0;
        while i < self.entries.len() && !bytes_eq(&self.entries[i].path, path)
            invariant
                i <= self.entries@.len(),
                self@ == s0,
                s0 == old(self)@,
                s0.len() == self.entries@.len(),
                paths_sorted(s0),
                conflict_free(s0),
                forall|j: int| 0 <= j < i ==> s0[j].path != path@,
            decreases self.entries@.len() - i,
        {
            i = i + 1;
        }
        if i < self.entries.len() {
            let mut es: Vec<IndexEntry> = Vec::new();
            std::mem::swap(&mut es, &mut self.entries);
            es.remove(i);
            proof {
                lemma_remove_at(s0, path@, i as int);
                assert(es@.map_values(|x: IndexEntry| x@) =~= s0.take(i as int) + s0.skip(
                    i as int + 1,
                ));
                lemma_sorted_cut(s0, i as int);
            }
            std::mem::swap(&mut es, &mut self.entries);
        } else {
            proof {
                lemma_remove_absent(s0, path@);
            }
        }
    }

    /// Empties the index, as commit does once its tree is safely recorded.
    pub fn clear(&mut self)
        ensures
            final(self)@ == Seq::<IndexEntryV>::empty(),
    {
        let mut es: Vec<IndexEntry> = Vec::new();
        std::mem::swap(&mut es, &mut self.entries);
    }

    /// Freezes the staged entries into tree objects, one per directory
    /// group with children written before their parents, and returns the
    /// root tree's id. The result depends only on the set of staged
    /// entries, never on the order the staging calls came in, and every
    /// tree written is canonical: its entries are strictly sorted by name,
    /// so no name recurs.
    pub fn write_tree(&self, store: &mut ObjectStore) -> (r: Result<ObjectId, Error>)
        ensures
            r matches Ok(id) ==> (write_tree_spec(old(store)@, self@) matches Ok(t)
                && final(store)@ == t.0 && id@ == t.1 && id@ == tree_id_of(self@)),
            r matches Err(e) ==> write_tree_spec(old(store)@, self@) == Err::<
                (Map<Seq<u8>, ObjectV>, Seq<u8>),
                Error,
            >(e),
            old(store)@.submap_of(final(store)@),
            paths_sorted(self@),
            conflict_free(self@),
            entry_names_sorted(tree_entries_of(self@)),
            r is Ok ==> (forall|k: Seq<u8>|
                #![auto]
                final(store)@.contains_key(k) && !old(store)@.contains_key(k) && final(store)@[k]
                    is Tree ==> entry_names_sorted(final(store)@[k]->Tree_0)),
    {
        proof {
            use_type_invariant(&*self);
            assert(self.entries@.map_values(|e: IndexEntry| e@).skip(0) =~= self@);
            lemma_build_entries_canonical(self@);
        }
        let ghost m0 = store@;
        let tes = match build_group(store, &self.entries, 0) {
            Ok(v) => v,
            Err(e) => {
                return Err(e);
            }
        };
        let ghost m1 = store@;
        let ghost tesv = tes@.map_values(|t: TreeEntry| t@);
        proof {
            lemma_build_store_entries(m0, self@);
            assert(tesv == tree_entries_of(self@));
            lemma_build_entries_canonical(self@);
        }
        let obj = Object::Tree(tes);
        proof {
            assert(obj@ == ObjectV::Tree(tesv));
        }
        match store.put(obj) {
            Ok(id) => {
                proof {
                    lemma_put_map_monotone(m1, ObjectV::Tree(tesv));
                    vstd::map_lib::lemma_submap_of_trans(m0, m1, store@);
                    lemma_build_store_canonical(m0, self@);
                    let root = ObjectV::Tree(tesv);
                    assert forall|k: Seq<u8>|
                        #![auto]
                        store@.contains_key(k) && !m0.contains_key(k) && store@[k]
                            is Tree implies entry_names_sorted(store@[k]->Tree_0) by {
                        if k == id_of(root) {
                            assert(store@[k] == root);
                        } else {
                            assert(store@[k] == m1[k]);
                            assert(m1.contains_key(k));
                        }
                    }
                }
                Ok(id)
            }
            Err(e) => Err(e),
        }
    }
}

/// Splicing `e` between an ordered prefix and suffix keeps the table
/// ordered.
proof fn lemma_sorted_splice(s: Seq<IndexEntryV>, e: IndexEntryV, i: int, k: int)
    requires
        paths_sorted(s),
        0 <= i <= k <= s.len(),
        k <= i + 1,
        forall|j: int| 0 <= j < i ==> tree_lt(s[j].path, e.path),
        forall|j: int| k <= j < s.len() ==> tree_lt(e.path, s[j].path),
    ensures
        paths_sorted(s.take(i) + seq![e] + s.skip(k)),
{
    let t = s.take(i) + seq![e] + s.skip(k);
    assert forall|p: int, q: int| 0 <= p < q < t.len() implies tree_lt(t[p].path, t[q].path) by {
        if q < i {
            assert(t[p] == s[p]);
            assert(t[q] == s[q]);
        } else if q == i {
            assert(t[p] == s[p]);
            assert(t[q] == e);
        } else {
            assert(t[q] == s[q - i - 1 + k]);
            if p < i {
                assert(t[p] == s[p]);
            } else if p == i {
                assert(t[p] == e);
            } else {
                assert(t[p] == s[p - i - 1 + k]);
            }
        }
    }
}

/// Cutting one entry out of an ordered, conflict-free table keeps it
/// ordered and conflict-free.
proof fn lemma_sorted_cut(s: Seq<IndexEntryV>, i: int)
    requires
        paths_sorted(s),
        conflict_free(s),
        0 <= i < s.len(),
    ensures
        paths_sorted(s.take(i) + s.skip(i + 1)),
        conflict_free(s.take(i) + s.skip(i + 1)),
{
    let t = s.take(i) + s.skip(i + 1);
    assert forall|p: int, q: int| 0 <= p < q < t.len() implies tree_lt(t[p].path, t[q].path) by {
        let p0: int = if p < i {
            p
        } else {
            p + 1
        };
        let q0: int = if q < i {
            q
        } else {
            q + 1
        };
        assert(t[p] == s[p0]);
        assert(t[q] == s[q0]);
    }
    assert forall|p: int, q: int|
        0 <= p < t.len() && 0 <= q < t.len() && p != q implies !under(t[p].path, t[q].path) by {
        let p0: int = if p < i {
            p
        } else {
            p + 1
        };
        let q0: int = if q < i {
            q
        } else {
            q + 1
        };
        assert(t[p] == s[p0]);
        assert(t[q] == s[q0]);
    }
}

/// Law: the frozen tree is order-independent. Two ordered tables holding the
/// same set of entries are the same table, so they freeze to the same tree
/// id no matter which order the staging calls arrived in.
pub proof fn lemma_write_tree_order_independent(a: Seq<IndexEntryV>, b: Seq<IndexEntryV>)
    requires
        paths_sorted(a),
        paths_sorted(b),
        a.to_set() == b.to_set(),
    ensures
        a == b,
        tree_id_of(a) == tree_id_of(b),
    decreases a.len(),
{
    if a.len() == 0 {
        if b.len() > 0 {
            assert(b.to_set().contains(b[0]));
            assert(a.to_set().contains(b[0]));
            assert(false);
        }
        assert(a =~= b);
    } else if b.len() == 0 {
        assert(a.to_set().contains(a[0]));
        assert(b.to_set().contains(a[0]));
        assert(false);
    } else {
        assert(a.to_set().contains(b[0]));
        assert(a.contains(b[0]));
        let i = choose|i: int| 0 <= i < a.len() && a[i] == b[0];
        assert(b.to_set().contains(a[0]));
        assert(b.contains(a[0]));
        let j = choose|j: int| 0 <= j < b.len() && b[j] == a[0];
        if i > 0 && j > 0 {
            assert(tree_lt(a[0].path, a[i].path));
            assert(tree_lt(b[0].path, b[j].path));
            lemma_tree_lt_asym(a[0].path, a[i].path);
            assert(false);
        }
        assert(a[0] == b[0]);
        lemma_head_not_in_tail(a);
        lemma_head_not_in_tail(b);
        assert(a.drop_first().to_set() =~= b.drop_first().to_set()) by {
            assert forall|x: IndexEntryV| a.drop_first().to_set().contains(x)
                <==> b.drop_first().to_set().contains(x) by {
                lemma_tail_set(a, x);
                lemma_tail_set(b, x);
            }
        }
        assert(paths_sorted(a.drop_first())) by {
            assert forall|p: int, q: int|
                0 <= p < q < a.drop_first().len() implies tree_lt(
                a.drop_first()[p].path,
                a.drop_first()[q].path,
            ) by {
                assert(a.drop_first()[p] == a[p + 1]);
                assert(a.drop_first()[q] == a[q + 1]);
            }
        }
        assert(paths_sorted(b.drop_first())) by {
            assert forall|p: int, q: int|
                0 <= p < q < b.drop_first().len() implies tree_lt(
                b.drop_first()[p].path,
                b.drop_first()[q].path,
            ) by {
                assert(b.drop_first()[p] == b[p + 1]);
                assert(b.drop_first()[q] == b[q + 1]);
            }
        }
        lemma_write_tree_order_independent(a.drop_first(), b.drop_first());
        assert(a.len() == b.len());
        assert forall|k: int| 0 <= k < a.len() implies a[k] == b[k] by {
            if k > 0 {
                assert(a[k] == a.drop_first()[k - 1]);
                assert(b[k] == b.drop_first()[k - 1]);
            }
        }
        assert(a =~= b);
    }
}

/// In a strictly ordered table the first entry does not recur later.
proof fn lemma_head_not_in_tail(s: Seq<IndexEntryV>)
    requires
        paths_sorted(s),
        s.len() > 0,
    ensures
        !s.drop_first().contains(s[0]),
{
    if s.drop_first().contains(s[0]) {
        let k = choose|k: int| 0 <= k < s.drop_first().len() && s.drop_first()[k] == s[0];
        assert(s.drop_first()[k] == s[k + 1]);
        assert(tree_lt(s[0].path, s[k + 1].path));
        lemma_tree_lt_irrefl(s[0].path);
        assert(false);
    }
}

/// Membership in the tail of a strictly ordered table.
proof fn lemma_tail_set(s: Seq<IndexEntryV>, x: IndexEntryV)
    requires
        paths_sorted(s),
        s.len() > 0,
    ensures
        s.drop_first().to_set().contains(x) <==> (s.to_set().contains(x) && x != s[0]),
{
    lemma_head_not_in_tail(s);
    if s.drop_first().contains(x) {
        let k = choose|k: int| 0 <= k < s.drop_first().len() && s.drop_first()[k] == x;
        assert(s.drop_first()[k] == s[k + 1]);
        assert(s.contains(x));
    }
    if s.contains(x) && x != s[0] {
        let k = choose|k: int| 0 <= k < s.len() && s[k] == x;
        assert(k > 0);
        assert(s.drop_first()[k - 1] == x);
        assert(s.drop_first().contains(x));
    }
}

} // verus!
