//! Freezing the staged entries into tree objects: entries are grouped by
//! their leading directory name, each group becomes its own tree, children
//! are written before their parents, and the root tree's entries carry the
//! groups' names.

use vstd::prelude::*;
use crate::error::Error;
use crate::index::IndexEntry;
use crate::index::conflict_free;
use crate::index::lemma_tree_lt_irrefl;
use crate::index::lemma_tree_lt_skip;
use crate::index::lemma_tree_lt_trans;
use crate::index::paths_sorted;
use crate::index::tree_lt;
use crate::index::IndexEntryV;
use crate::object::EntryKind;
use crate::object::Object;
use crate::object::ObjectV;
use crate::object::TreeEntry;
use crate::object::TreeEntryV;
use crate::object::id_of;
use crate::oid::copy_bytes;
use crate::store::ObjectStore;
use crate::store::collides;
use crate::store::put_map;

verus! {

/// The file-type tag given to subtree entries.
pub const MODE_DIR: u32 = 0o040000;

/// The position of the first path separator, or the path's length when it
/// has none.
pub open spec fn first_slash(p: Seq<u8>) -> int
    decreases p.len(),
{
    if p.len() == 0 {
        0
    } else if p[0] == 47 {
        0
    } else {
        1 + first_slash(p.drop_first())
    }
}

pub proof fn lemma_first_slash(p: Seq<u8>)
    ensures
        0 <= first_slash(p) <= p.len(),
        forall|j: int| 0 <= j < first_slash(p) ==> p[j] != 47,
        first_slash(p) < p.len() ==> p[first_slash(p)] == 47,
    decreases p.len(),
{
    if p.len() > 0 && p[0] != 47 {
        lemma_first_slash(p.drop_first());
        assert forall|j: int| 0 <= j < first_slash(p) implies p[j] != 47 by {
            if j > 0 {
                assert(p[j] == p.drop_first()[j - 1]);
            }
        }
        if first_slash(p) < p.len() {
            assert(p[first_slash(p)] == p.drop_first()[first_slash(p) - 1]);
        }
    }
}

proof fn lemma_first_slash_char(p: Seq<u8>, i: int)
    requires
        0 <= i <= p.len(),
        forall|j: int| 0 <= j < i ==> p[j] != 47,
        i < p.len() ==> p[i] == 47,
    ensures
        first_slash(p) == i,
    decreases i,
{
    if i == 0 {
    } else {
        assert(p[0] != 47);
        assert forall|j: int| 0 <= j < i - 1 implies p.drop_first()[j] != 47 by {
            assert(p.drop_first()[j] == p[j + 1]);
        }
        if i - 1 < p.drop_first().len() {
            assert(p.drop_first()[i - 1] == p[i]);
        }
        lemma_first_slash_char(p.drop_first(), i - 1);
    }
}

/// The first path separator's position in `p`.
pub fn find_slash(p: &Vec<u8>) -> (r: usize)
    ensures
        r == first_slash(p@),
{
    let mut i: usize = 0;
    while i < p.len() && p[i] != 47
        invariant
            i <= p.len(),
            forall|j: int| 0 <= j < i ==> p@[j] != 47,
        decreases p.len() - i,
    {
        i = i + 1;
    }
    proof {
        lemma_first_slash_char(p@, i as int);
    }
    i
}

/// Whether a path lies inside the directory named `d`: it continues past a
/// separator after that exact name.
pub open spec fn under(p: Seq<u8>, d: Seq<u8>) -> bool {
    p.len() > d.len() && p.take(d.len() as int) == d && p[d.len() as int] == 47
}

/// Decides `under(p@, d@)`.
pub fn is_under(p: &Vec<u8>, d: &Vec<u8>) -> (r: bool)
    ensures
        r == under(p@, d@),
{
    if p.len() <= d.len() {
        return false;
    }
    if p[d.len()] != 47 {
        return false;
    }
    let mut i: usize = 0;
    while i < d.len()
        invariant
            i <= d.len(),
            d.len() < p.len(),
            forall|j: int| 0 <= j < i ==> p@[j] == d@[j],
        decreases d.len() - i,
    {
        if p[i] != d[i] {
            proof {
                assert(p@.take(d@.len() as int)[i as int] == p@[i as int]);
            }
            return false;
        }
        i = i + 1;
    }
    proof {
        assert(p@.take(d@.len() as int) =~= d@);
    }
    true
}

/// How many entries at the front of `s` lie inside the directory `d`.
pub open spec fn run_len(s: Seq<IndexEntryV>, d: Seq<u8>) -> int
    decreases s.len(),
{
    if s.len() > 0 && under(s[0].path, d) {
        1 + run_len(s.drop_first(), d)
    } else {
        0
    }
}

proof fn lemma_run_len_char(s: Seq<IndexEntryV>, d: Seq<u8>, c: int)
    requires
        0 <= c <= s.len(),
        forall|j: int| 0 <= j < c ==> under(s[j].path, d),
        c < s.len() ==> !under(s[c].path, d),
    ensures
        run_len(s, d) == c,
    decreases c,
{
    if c == 0 {
    } else {
        assert(under(s[0].path, d));
        let t = s.drop_first();
        assert forall|j: int| 0 <= j < c - 1 implies under(t[j].path, d) by {
            assert(t[j] == s[j + 1]);
        }
        if c - 1 < t.len() {
            assert(t[c - 1] == s[c]);
        }
        lemma_run_len_char(t, d, c - 1);
    }
}

/// The entries with the leading directory and its separator cut off.
pub open spec fn strip_pref(s: Seq<IndexEntryV>, k: int) -> Seq<IndexEntryV> {
    s.map_values(
        |e: IndexEntryV| IndexEntryV { path: e.path.skip(k), id: e.id, mode: e.mode, size: e.size },
    )
}

/// The total length of the paths in a table, the measure the grouping
/// recursion descends on.
pub open spec fn sum_plen(s: Seq<IndexEntryV>) -> nat
    decreases s.len(),
{
    if s.len() == 0 {
        0
    } else {
        s[0].path.len() + sum_plen(s.drop_first())
    }
}

proof fn lemma_sum_split(s: Seq<IndexEntryV>, c: int)
    requires
        0 <= c <= s.len(),
    ensures
        sum_plen(s) == sum_plen(s.take(c)) + sum_plen(s.skip(c)),
    decreases c,
{
    if c == 0 {
        assert(s.take(0).len() == 0);
        assert(s.skip(0) =~= s);
    } else {
        lemma_sum_split(s.drop_first(), c - 1);
        assert(s.take(c)[0] == s[0]);
        assert(s.take(c).drop_first() =~= s.drop_first().take(c - 1));
        assert(s.skip(c) =~= s.drop_first().skip(c - 1));
    }
}

proof fn lemma_sum_strip(x: Seq<IndexEntryV>, k: int)
    requires
        k >= 1,
        forall|i: int| 0 <= i < x.len() ==> x[i].path.len() >= k,
    ensures
        sum_plen(strip_pref(x, k)) <= sum_plen(x),
        x.len() > 0 ==> sum_plen(strip_pref(x, k)) < sum_plen(x),
    decreases x.len(),
{
    if x.len() > 0 {
        assert forall|i: int| 0 <= i < x.drop_first().len() implies x.drop_first()[i].path.len()
            >= k by {
            assert(x.drop_first()[i] == x[i + 1]);
        }
        lemma_sum_strip(x.drop_first(), k);
        assert(strip_pref(x, k).drop_first() =~= strip_pref(x.drop_first(), k));
        assert(strip_pref(x, k)[0].path == x[0].path.skip(k));
        assert(x[0].path.skip(k).len() == x[0].path.len() - k);
    }
}

/// The digest a sequence of tree entries freezes into.
pub open spec fn tree_digest(es: Seq<TreeEntryV>) -> Seq<u8> {
    id_of(ObjectV::Tree(es))
}

/// The tree entries a table freezes into: a file name becomes a blob entry,
/// and the entries inside a common leading directory become one subtree
/// entry carrying that directory's name.
pub open spec fn build_entries(s: Seq<IndexEntryV>) -> Seq<TreeEntryV>
    decreases sum_plen(s), s.len(),
    via build_entries_dec
{
    if s.len() == 0 {
        Seq::empty()
    } else {
        let p0 = s[0].path;
        let f = first_slash(p0);
        if f >= p0.len() {
            seq![TreeEntryV { name: p0, mode: s[0].mode, id: s[0].id, kind: EntryKind::Blob }]
                + build_entries(s.drop_first())
        } else {
            let d = p0.take(f);
            let c = run_len(s, d);
            let sub = strip_pref(s.take(c), f + 1);
            seq![
                TreeEntryV {
                    name: d,
                    mode: MODE_DIR,
                    id: tree_digest(build_entries(sub)),
                    kind: EntryKind::Tree,
                },
            ] + build_entries(s.skip(c))
        }
    }
}

proof fn lemma_group_front(s: Seq<IndexEntryV>)
    requires
        s.len() > 0,
        first_slash(s[0].path) < s[0].path.len(),
    ensures
        1 <= run_len(s, s[0].path.take(first_slash(s[0].path))) <= s.len(),
        sum_plen(
            strip_pref(
                s.take(run_len(s, s[0].path.take(first_slash(s[0].path)))),
                first_slash(s[0].path) + 1,
            ),
        ) < sum_plen(s),
        sum_plen(s.skip(run_len(s, s[0].path.take(first_slash(s[0].path))))) <= sum_plen(s),
{
    let p0 = s[0].path;
    let f = first_slash(p0);
    let d = p0.take(f);
    lemma_first_slash(p0);
    assert(under(p0, d));
    let c = run_len(s, d);
    lemma_run_len_bounds(s, d);
    assert(c >= 1) by {
        assert(run_len(s, d) == 1 + run_len(s.drop_first(), d));
        lemma_run_len_bounds(s.drop_first(), d);
    }
    lemma_sum_split(s, c);
    assert forall|i: int| 0 <= i < s.take(c).len() implies s.take(c)[i].path.len() >= f + 1 by {
        assert(s.take(c)[i] == s[i]);
        assert(under(s[i].path, d));
    }
    lemma_sum_strip(s.take(c), f + 1);
    assert(s.take(c).len() > 0);
}

proof fn lemma_run_len_bounds(s: Seq<IndexEntryV>, d: Seq<u8>)
    ensures
        0 <= run_len(s, d) <= s.len(),
        forall|j: int| 0 <= j < run_len(s, d) ==> under(s[j].path, d),
        run_len(s, d) < s.len() ==> !under(s[run_len(s, d)].path, d),
    decreases s.len(),
{
    if s.len() > 0 && under(s[0].path, d) {
        lemma_run_len_bounds(s.drop_first(), d);
        assert forall|j: int| 0 <= j < run_len(s, d) implies under(s[j].path, d) by {
            if j > 0 {
                assert(s[j] == s.drop_first()[j - 1]);
            }
        }
        if run_len(s, d) < s.len() {
            assert(s[run_len(s, d)] == s.drop_first()[run_len(s.drop_first(), d)]);
        }
    }
}

#[via_fn]
proof fn build_entries_dec(s: Seq<IndexEntryV>) {
    if s.len() > 0 {
        let p0 = s[0].path;
        let f = first_slash(p0);
        lemma_first_slash(p0);
        if f >= p0.len() {
            lemma_sum_split(s, 1);
            assert(s.skip(1) =~= s.drop_first());
        } else {
            lemma_group_front(s);
        }
    }
}

/// What freezing does to the store, group by group: each subtree is written
/// before the entry naming it, a colliding slot stops the walk with
/// `Corrupt`, and the produced entries are handed up.
pub open spec fn build_store(m: Map<Seq<u8>, ObjectV>, s: Seq<IndexEntryV>) -> Result<
    (Map<Seq<u8>, ObjectV>, Seq<TreeEntryV>),
    Error,
>
    decreases sum_plen(s), s.len(),
    via build_store_dec
{
    if s.len() == 0 {
        Ok((m, Seq::empty()))
    } else {
        let p0 = s[0].path;
        let f = first_slash(p0);
        if f >= p0.len() {
            match build_store(m, s.drop_first()) {
                Ok(t) => Ok(
                    (
                        t.0,
                        seq![
                            TreeEntryV {
                                name: p0,
                                mode: s[0].mode,
                                id: s[0].id,
                                kind: EntryKind::Blob,
                            },
                        ] + t.1,
                    ),
                ),
                Err(e) => Err(e),
            }
        } else {
            let d = p0.take(f);
            let c = run_len(s, d);
            let sub = strip_pref(s.take(c), f + 1);
            match build_store(m, sub) {
                Ok(t1) => {
                    let tobj = ObjectV::Tree(t1.1);
                    if collides(t1.0, tobj) {
                        Err(Error::Corrupt)
                    } else {
                        match build_store(put_map(t1.0, tobj), s.skip(c)) {
                            Ok(t2) => Ok(
                                (
                                    t2.0,
                                    seq![
                                        TreeEntryV {
                                            name: d,
                                            mode: MODE_DIR,
                                            id: id_of(tobj),
                                            kind: EntryKind::Tree,
                                        },
                                    ] + t2.1,
                                ),
                            ),
                            Err(e) => Err(e),
                        }
                    }
                }
                Err(e) => Err(e),
            }
        }
    }
}

#[via_fn]
proof fn build_store_dec(m: Map<Seq<u8>, ObjectV>, s: Seq<IndexEntryV>) {
    if s.len() > 0 {
        let p0 = s[0].path;
        let f = first_slash(p0);
        lemma_first_slash(p0);
        if f >= p0.len() {
            lemma_sum_split(s, 1);
            assert(s.skip(1) =~= s.drop_first());
        } else {
            lemma_group_front(s);
        }
    }
}

/// Whatever store it runs against, a successful freeze hands up exactly the
/// entries the table determines: the store decides only success or failure.
pub proof fn lemma_build_store_entries(m: Map<Seq<u8>, ObjectV>, s: Seq<IndexEntryV>)
    ensures
        build_store(m, s) matches Ok(t) ==> t.1 == build_entries(s),
    decreases sum_plen(s), s.len(),
{
    if s.len() == 0 {
    } else {
        let p0 = s[0].path;
        let f = first_slash(p0);
        lemma_first_slash(p0);
        if f >= p0.len() {
            lemma_sum_split(s, 1);
            assert(s.skip(1) =~= s.drop_first());
            lemma_build_store_entries(m, s.drop_first());
        } else {
            lemma_group_front(s);
            let d = p0.take(f);
            let c = run_len(s, d);
            let sub = strip_pref(s.take(c), f + 1);
            lemma_build_store_entries(m, sub);
            match build_store(m, sub) {
                Ok(t1) => {
                    let tobj = ObjectV::Tree(t1.1);
                    if !collides(t1.0, tobj) {
                        lemma_build_store_entries(put_map(t1.0, tobj), s.skip(c));
                    }
                }
                Err(_) => {}
            }
        }
    }
}

/// A successful freeze only adds objects: everything stored before is still
/// stored, unchanged, afterwards.
pub proof fn lemma_build_store_monotone(m: Map<Seq<u8>, ObjectV>, s: Seq<IndexEntryV>)
    ensures
        build_store(m, s) matches Ok(t) ==> m.submap_of(t.0),
    decreases sum_plen(s), s.len(),
{
    if s.len() == 0 {
        assert(m.submap_of(m));
    } else {
        let p0 = s[0].path;
        let f = first_slash(p0);
        lemma_first_slash(p0);
        if f >= p0.len() {
            lemma_sum_split(s, 1);
            assert(s.skip(1) =~= s.drop_first());
            lemma_build_store_monotone(m, s.drop_first());
        } else {
            lemma_group_front(s);
            let d = p0.take(f);
            let c = run_len(s, d);
            let sub = strip_pref(s.take(c), f + 1);
            lemma_build_store_monotone(m, sub);
            match build_store(m, sub) {
                Ok(t1) => {
                    let tobj = ObjectV::Tree(t1.1);
                    if !collides(t1.0, tobj) {
                        lemma_build_store_monotone(put_map(t1.0, tobj), s.skip(c));
                        lemma_put_map_monotone(t1.0, tobj);
                        match build_store(put_map(t1.0, tobj), s.skip(c)) {
                            Ok(t2) => {
                                vstd::map_lib::lemma_submap_of_trans(
                                    m,
                                    t1.0,
                                    put_map(t1.0, tobj),
                                );
                                vstd::map_lib::lemma_submap_of_trans(
                                    m,
                                    put_map(t1.0, tobj),
                                    t2.0,
                                );
                            }
                            Err(_) => {}
                        }
                    }
                }
                Err(_) => {}
            }
        }
    }
}

/// A collision-free store write keeps everything already stored.
pub proof fn lemma_put_map_monotone(m: Map<Seq<u8>, ObjectV>, o: ObjectV)
    requires
        !collides(m, o),
    ensures
        m.submap_of(put_map(m, o)),
{
}

/// A directory group keeps its order and conflict-freedom once the shared
/// leading directory is cut off.
proof fn lemma_strip_group(s: Seq<IndexEntryV>, d: Seq<u8>, c: int)
    requires
        paths_sorted(s),
        conflict_free(s),
        0 <= c <= s.len(),
        forall|j: int| 0 <= j < c ==> under(s[j].path, d),
    ensures
        paths_sorted(strip_pref(s.take(c), d.len() as int + 1)),
        conflict_free(strip_pref(s.take(c), d.len() as int + 1)),
{
    let k = d.len() as int + 1;
    let g = strip_pref(s.take(c), k);
    assert forall|i: int, j: int| 0 <= i < j < g.len() implies tree_lt(g[i].path, g[j].path) by {
        assert(under(s[i].path, d));
        assert(under(s[j].path, d));
        assert(g[i].path == s[i].path.skip(k));
        assert(g[j].path == s[j].path.skip(k));
        assert forall|b: int| 0 <= b < k implies s[i].path[b] == s[j].path[b] by {
            if b < d.len() {
                assert(s[i].path.take(d.len() as int)[b] == s[i].path[b]);
                assert(s[j].path.take(d.len() as int)[b] == s[j].path[b]);
            }
        }
        lemma_tree_lt_skip(s[i].path, s[j].path, k);
        assert(tree_lt(s[i].path, s[j].path));
    }
    assert forall|i: int, j: int|
        0 <= i < g.len() && 0 <= j < g.len() && i != j implies !under(g[i].path, g[j].path) by {
        assert(under(s[i].path, d));
        assert(under(s[j].path, d));
        assert(g[i].path == s[i].path.skip(k));
        assert(g[j].path == s[j].path.skip(k));
        assert forall|b: int| 0 <= b < k implies s[i].path[b] == s[j].path[b] by {
            if b < d.len() {
                assert(s[i].path.take(d.len() as int)[b] == s[i].path[b]);
                assert(s[j].path.take(d.len() as int)[b] == s[j].path[b]);
            }
        }
        if under(g[i].path, g[j].path) {
            assert(under(s[i].path, s[j].path)) by {
                assert(s[i].path.len() > s[j].path.len());
                assert(s[i].path.take(s[j].path.len() as int) =~= s[j].path) by {
                    assert forall|b: int|
                        0 <= b < s[j].path.len() implies s[i].path[b] == s[j].path[b] by {
                        if b >= k {
                            assert(g[i].path.take(g[j].path.len() as int)[b - k] == g[i].path[b
                                - k]);
                        }
                    }
                }
                assert(s[i].path[s[j].path.len() as int] == g[i].path[g[j].path.len() as int]);
            }
        }
    }
}

/// Law: every tree object a freeze writes into the store is canonical: its
/// entries are strictly sorted by name, so no name recurs.
pub proof fn lemma_build_store_canonical(m: Map<Seq<u8>, ObjectV>, s: Seq<IndexEntryV>)
    requires
        paths_sorted(s),
        conflict_free(s),
    ensures
        build_store(m, s) matches Ok(t) ==> forall|k: Seq<u8>|
            #![auto]
            t.0.contains_key(k) && !m.contains_key(k) && t.0[k] is Tree ==> entry_names_sorted(
                t.0[k]->Tree_0,
            ),
    decreases sum_plen(s), s.len(),
{
    if s.len() == 0 {
    } else {
        let p0 = s[0].path;
        let f = first_slash(p0);
        lemma_first_slash(p0);
        if f >= p0.len() {
            lemma_sum_split(s, 1);
            assert(s.skip(1) =~= s.drop_first());
            assert(paths_sorted(s.drop_first()) && conflict_free(s.drop_first())) by {
                assert forall|a: int, b: int|
                    0 <= a < s.drop_first().len() && 0 <= b < s.drop_first().len() && a
                        != b implies !under(s.drop_first()[a].path, s.drop_first()[b].path) && (a
                        < b ==> tree_lt(s.drop_first()[a].path, s.drop_first()[b].path)) by {
                    assert(s.drop_first()[a] == s[a + 1]);
                    assert(s.drop_first()[b] == s[b + 1]);
                }
            }
            lemma_build_store_canonical(m, s.drop_first());
        } else {
            let d = p0.take(f);
            let c = run_len(s, d);
            lemma_group_front(s);
            lemma_run_len_bounds(s, d);
            let sub = strip_pref(s.take(c), f + 1);
            assert(d.len() == f);
            lemma_strip_group(s, d, c);
            lemma_build_store_canonical(m, sub);
            lemma_build_entries_canonical(sub);
            lemma_build_store_entries(m, sub);
            match build_store(m, sub) {
                Ok(t1) => {
                    let tobj = ObjectV::Tree(t1.1);
                    if !collides(t1.0, tobj) {
                        let m2 = put_map(t1.0, tobj);
                        let rest = s.skip(c);
                        assert(paths_sorted(rest) && conflict_free(rest)) by {
                            assert forall|a: int, b: int|
                                0 <= a < rest.len() && 0 <= b < rest.len() && a != b implies !under(
                                rest[a].path,
                                rest[b].path,
                            ) && (a < b ==> tree_lt(rest[a].path, rest[b].path)) by {
                                assert(rest[a] == s[c + a]);
                                assert(rest[b] == s[c + b]);
                            }
                        }
                        lemma_build_store_canonical(m2, rest);
                        lemma_build_store_monotone(m, sub);
                        lemma_build_store_monotone(m2, rest);
                        lemma_put_map_monotone(t1.0, tobj);
                        match build_store(m2, rest) {
                            Ok(t2) => {
                                assert forall|k: Seq<u8>|
                                    #![auto]
                                    t2.0.contains_key(k) && !m.contains_key(k) && t2.0[k]
                                        is Tree implies entry_names_sorted(t2.0[k]->Tree_0) by {
                                    if t1.0.contains_key(k) {
                                        assert(t1.0.dom().contains(k));
                                        assert(m2.dom().contains(k) && t1.0[k] == m2[k]);
                                        assert(t2.0.dom().contains(k) && m2[k] == t2.0[k]);
                                        assert(t2.0[k] == t1.0[k]);
                                    } else if k == id_of(tobj) {
                                        assert(m2[k] == tobj);
                                        assert(m2.dom().contains(k));
                                        assert(m2[k] == t2.0[k]);
                                        assert(t2.0[k] == tobj);
                                        assert(t1.1 == build_entries(sub));
                                    } else {
                                        assert(m2.contains_key(k) ==> t1.0.contains_key(k) || k
                                            == id_of(tobj));
                                    }
                                }
                            }
                            Err(_) => {}
                        }
                    }
                }
                Err(_) => {}
            }
        }
    }
}

/// What writing the whole table as a tree does: freeze every group, then
/// write the root tree and return its id.
pub open spec fn write_tree_spec(m: Map<Seq<u8>, ObjectV>, s: Seq<IndexEntryV>) -> Result<
    (Map<Seq<u8>, ObjectV>, Seq<u8>),
    Error,
> {
    match build_store(m, s) {
        Ok(t) => {
            let tobj = ObjectV::Tree(t.1);
            if collides(t.0, tobj) {
                Err(Error::Corrupt)
            } else {
                Ok((put_map(t.0, tobj), id_of(tobj)))
            }
        }
        Err(e) => Err(e),
    }
}

/// The leading name of a path: everything before its first separator, or
/// the whole path when it has none.
pub open spec fn first_name(p: Seq<u8>) -> Seq<u8> {
    p.take(first_slash(p))
}

/// Entries strictly sorted by name. Names hold no separator, so the tree
/// order used here is plain lexicographic byte order on them, and strict
/// sortedness makes the names pairwise distinct.
pub open spec fn entry_names_sorted(t: Seq<TreeEntryV>) -> bool {
    forall|i: int, j: int| 0 <= i < j < t.len() ==> tree_lt(t[i].name, t[j].name)
}

/// Path order agrees with name order on leading names: of two ordered
/// paths with different leading names, the first path's leading name comes
/// first.
pub proof fn lemma_tree_lt_first_names(p: Seq<u8>, q: Seq<u8>)
    requires
        tree_lt(p, q),
        first_name(p) != first_name(q),
    ensures
        tree_lt(first_name(p), first_name(q)),
    decreases p.len(),
{
    lemma_first_slash(p);
    lemma_first_slash(q);
    if p.len() == 0 {
        assert(first_name(p) =~= Seq::<u8>::empty());
        assert(first_name(q).len() > 0) by {
            if first_name(q).len() == 0 {
                assert(first_name(q) =~= first_name(p));
            }
        }
    } else {
        assert(q.len() > 0);
        if p[0] == 47 {
            assert(first_slash(p) == 0);
            assert(first_name(p) =~= Seq::<u8>::empty());
            assert(first_name(q).len() > 0) by {
                if first_name(q).len() == 0 {
                    assert(first_name(q) =~= first_name(p));
                }
            }
        } else if q[0] == 47 {
            assert(crate::index::path_byte_key(p[0]) > crate::index::path_byte_key(q[0]));
            assert(false);
        } else {
            assert(first_slash(p) >= 1);
            assert(first_slash(q) >= 1);
            assert(first_name(p)[0] == p[0]);
            assert(first_name(q)[0] == q[0]);
            if p[0] != q[0] {
                assert(crate::index::path_byte_key(p[0]) < crate::index::path_byte_key(q[0]));
                assert(tree_lt(first_name(p), first_name(q)));
            } else {
                let pd = p.drop_first();
                let qd = q.drop_first();
                lemma_first_slash(pd);
                lemma_first_slash(qd);
                assert(tree_lt(pd, qd));
                assert(first_slash(p) == 1 + first_slash(pd));
                assert(first_slash(q) == 1 + first_slash(qd));
                assert(first_name(p).drop_first() =~= first_name(pd));
                assert(first_name(q).drop_first() =~= first_name(qd));
                assert(first_name(pd) != first_name(qd)) by {
                    if first_name(pd) == first_name(qd) {
                        assert(first_name(pd).len() == first_slash(pd));
                        assert(first_name(qd).len() == first_slash(qd));
                        assert(first_name(p).len() == first_name(q).len());
                        assert forall|k: int|
                            0 <= k < first_name(p).len() implies first_name(p)[k] == first_name(
                            q,
                        )[k] by {
                            if k == 0 {
                                assert(first_name(p)[0] == p[0]);
                                assert(first_name(q)[0] == q[0]);
                            } else {
                                assert(first_name(p)[k] == p[k]);
                                assert(p[k] == pd[k - 1]);
                                assert(pd[k - 1] == first_name(pd)[k - 1]);
                                assert(first_name(qd)[k - 1] == qd[k - 1]);
                                assert(q[k] == qd[k - 1]);
                                assert(first_name(q)[k] == q[k]);
                            }
                        }
                        assert(first_name(p) =~= first_name(q));
                    }
                }
                lemma_tree_lt_first_names(pd, qd);
                assert(tree_lt(first_name(p), first_name(q))) by {
                    assert(first_name(p).len() > 0);
                    assert(first_name(q).len() > 0);
                    assert(first_name(p)[0] == first_name(q)[0]);
                    assert(tree_lt(first_name(p), first_name(q)) == tree_lt(
                        first_name(p).drop_first(),
                        first_name(q).drop_first(),
                    ));
                }
            }
        }
    }
}

/// Law: every tree the freeze produces is canonical. On an ordered,
/// conflict-free table the produced entries are strictly sorted by name,
/// and the first entry carries the leading name of the first path.
pub proof fn lemma_build_entries_canonical(s: Seq<IndexEntryV>)
    requires
        paths_sorted(s),
        conflict_free(s),
    ensures
        entry_names_sorted(build_entries(s)),
        s.len() > 0 ==> build_entries(s).len() > 0 && build_entries(s)[0].name == first_name(
            s[0].path,
        ),
    decreases sum_plen(s), s.len(),
{
    if s.len() == 0 {
    } else {
        let p0 = s[0].path;
        let f = first_slash(p0);
        lemma_first_slash(p0);
        if f >= p0.len() {
            let t = s.drop_first();
            assert(first_name(p0) =~= p0);
            assert(paths_sorted(t) && conflict_free(t)) by {
                assert forall|a: int, b: int|
                    0 <= a < t.len() && 0 <= b < t.len() && a != b implies !under(
                    t[a].path,
                    t[b].path,
                ) && (a < b ==> tree_lt(t[a].path, t[b].path)) by {
                    assert(t[a] == s[a + 1]);
                    assert(t[b] == s[b + 1]);
                }
            }
            lemma_sum_split(s, 1);
            assert(s.skip(1) =~= t);
            lemma_build_entries_canonical(t);
            let out = build_entries(s);
            let rest = build_entries(t);
            assert(out == seq![
                TreeEntryV { name: p0, mode: s[0].mode, id: s[0].id, kind: EntryKind::Blob },
            ] + rest);
            if t.len() > 0 {
                let n1 = first_name(t[0].path);
                assert(t[0] == s[1]);
                assert(tree_lt(p0, t[0].path));
                assert(first_name(p0) != n1) by {
                    if first_name(p0) == n1 {
                        lemma_first_slash(t[0].path);
                        if first_slash(t[0].path) >= t[0].path.len() {
                            assert(n1 =~= t[0].path);
                            assert(p0 =~= t[0].path);
                            lemma_tree_lt_irrefl(p0);
                        } else {
                            assert(n1.len() == first_slash(t[0].path));
                            assert(p0.len() == n1.len());
                            assert(under(t[0].path, p0)) by {
                                assert(t[0].path.take(p0.len() as int) =~= n1);
                                assert(t[0].path[p0.len() as int] == 47);
                            }
                            assert(!under(s[1].path, s[0].path));
                        }
                    }
                }
                lemma_tree_lt_first_names(p0, t[0].path);
                assert(tree_lt(first_name(p0), n1));
                assert(tree_lt(p0, n1));
            }
            assert forall|a: int, b: int| 0 <= a < b < out.len() implies tree_lt(
                out[a].name,
                out[b].name,
            ) by {
                if a == 0 {
                    assert(out[b].name == rest[b - 1].name);
                    if b - 1 == 0 {
                        assert(rest[0].name == first_name(t[0].path));
                    } else {
                        assert(tree_lt(rest[0].name, rest[b - 1].name));
                        lemma_tree_lt_trans(p0, rest[0].name, rest[b - 1].name);
                    }
                } else {
                    assert(out[a].name == rest[a - 1].name);
                    assert(out[b].name == rest[b - 1].name);
                }
            }
        } else {
            let d = p0.take(f);
            let c = run_len(s, d);
            lemma_group_front(s);
            lemma_run_len_bounds(s, d);
            let sub = strip_pref(s.take(c), f + 1);
            let rest_s = s.skip(c);
            assert(paths_sorted(rest_s) && conflict_free(rest_s)) by {
                assert forall|a: int, b: int|
                    0 <= a < rest_s.len() && 0 <= b < rest_s.len() && a != b implies !under(
                    rest_s[a].path,
                    rest_s[b].path,
                ) && (a < b ==> tree_lt(rest_s[a].path, rest_s[b].path)) by {
                    assert(rest_s[a] == s[c + a]);
                    assert(rest_s[b] == s[c + b]);
                }
            }
            lemma_sum_split(s, c);
            lemma_build_entries_canonical(rest_s);
            let out = build_entries(s);
            let rest = build_entries(rest_s);
            assert(out == seq![
                TreeEntryV {
                    name: d,
                    mode: MODE_DIR,
                    id: tree_digest(build_entries(sub)),
                    kind: EntryKind::Tree,
                },
            ] + rest);
            assert(first_name(p0) == d);
            if rest_s.len() > 0 {
                let n1 = first_name(rest_s[0].path);
                assert(rest_s[0] == s[c]);
                assert(c < s.len());
                assert(tree_lt(p0, s[c].path));
                assert(!under(s[c].path, d));
                assert(d != n1) by {
                    if d == n1 {
                        lemma_first_slash(s[c].path);
                        if first_slash(s[c].path) >= s[c].path.len() {
                            assert(n1 =~= s[c].path);
                            assert(s[c].path =~= d);
                            lemma_tree_lt_skip(p0, d, d.len() as int);
                            assert(p0.skip(d.len() as int).len() > 0);
                            assert(tree_lt(p0, d) == tree_lt(
                                p0.skip(d.len() as int),
                                d.skip(d.len() as int),
                            ));
                            assert(d.skip(d.len() as int).len() == 0);
                            assert(!tree_lt(p0, d));
                            assert(tree_lt(p0, s[c].path));
                        } else {
                            assert(n1.len() == first_slash(s[c].path));
                            assert(under(s[c].path, d)) by {
                                assert(s[c].path.take(d.len() as int) =~= n1);
                                assert(s[c].path[d.len() as int] == 47);
                            }
                        }
                    }
                }
                lemma_tree_lt_first_names(p0, s[c].path);
                assert(tree_lt(d, n1));
            }
            assert forall|a: int, b: int| 0 <= a < b < out.len() implies tree_lt(
                out[a].name,
                out[b].name,
            ) by {
                if a == 0 {
                    assert(out[b].name == rest[b - 1].name);
                    if b - 1 == 0 {
                        assert(rest[0].name == first_name(rest_s[0].path));
                    } else {
                        assert(tree_lt(rest[0].name, rest[b - 1].name));
                        lemma_tree_lt_trans(d, rest[0].name, rest[b - 1].name);
                    }
                } else {
                    assert(out[a].name == rest[a - 1].name);
                    assert(out[b].name == rest[b - 1].name);
                }
            }
        }
    }
}

/// An independent copy of the bytes of `v` between `a` and `b`.
fn copy_range(v: &Vec<u8>, a: usize, b: usize) -> (r: Vec<u8>)
    requires
        a <= b,
        b <= v@.len(),
    ensures
        r@ == v@.subrange(a as int, b as int),
{
    let mut r: Vec<u8> = Vec::new();
    let mut j: usize = a;
    while j < b
        invariant
            a <= j <= b,
            b <= v@.len(),
            r@ == v@.subrange(a as int, j as int),
        decreases b - j,
    {
        r.push(v[j]);
        j = j + 1;
        proof {
            assert(r@ =~= v@.subrange(a as int, j as int));
        }
    }
    r
}

/// Freezes the entries of `entries` from position `lo` on into tree
/// entries, writing each subtree through the store before the entry that
/// names it.
pub(crate) fn build_group(store: &mut ObjectStore, entries: &Vec<IndexEntry>, lo: usize) -> (r:
    Result<Vec<TreeEntry>, Error>)
    requires
        lo <= entries@.len(),
    ensures
        ({
            let rem = entries@.map_values(|e: IndexEntry| e@).skip(lo as int);
            &&& (r matches Ok(tes) ==> build_store(old(store)@, rem) == Ok::<
                (Map<Seq<u8>, ObjectV>, Seq<TreeEntryV>),
                Error,
            >((final(store)@, tes@.map_values(|t: TreeEntry| t@))))
            &&& (r matches Err(e) ==> build_store(old(store)@, rem) == Err::<
                (Map<Seq<u8>, ObjectV>, Seq<TreeEntryV>),
                Error,
            >(e))
        }),
        old(store)@.submap_of(final(store)@),
    decreases sum_plen(entries@.map_values(|e: IndexEntry| e@).skip(lo as int)),
        entries@.len() - lo,
{
    let ghost evs = entries@.map_values(|e: IndexEntry| e@);
    let ghost rem = evs.skip(lo as int);
    let ghost m0 = store@;
    proof {
        assert(m0.submap_of(m0));
    }
    if lo == entries.len() {
        let out: Vec<TreeEntry> = Vec::new();
        proof {
            assert(rem =~= Seq::<IndexEntryV>::empty());
            assert(out@.map_values(|t: TreeEntry| t@) =~= Seq::<TreeEntryV>::empty());
        }
        return Ok(out);
    }
    proof {
        assert(evs[lo as int] == entries@[lo as int]@);
        assert(rem[0] == evs[lo as int]);
    }
    let f = find_slash(&entries[lo].path);
    proof {
        lemma_first_slash(rem[0].path);
    }
    if f >= entries[lo].path.len() {
        proof {
            lemma_sum_split(rem, 1);
            assert(rem.skip(1) =~= evs.skip(lo as int + 1));
            assert(rem.drop_first() =~= evs.skip(lo as int + 1));
        }
        let rest = match build_group(store, entries, lo + 1) {
            Ok(v) => v,
            Err(e) => {
                return Err(e);
            }
        };
        let head = TreeEntry {
            name: copy_bytes(&entries[lo].path),
            mode: entries[lo].mode,
            id: entries[lo].id.dup(),
            kind: EntryKind::Blob,
        };
        let ghost restv = rest@.map_values(|t: TreeEntry| t@);
        let mut out = rest;
        out.insert(0, head);
        proof {
            assert(out@.map_values(|t: TreeEntry| t@) =~= seq![
                TreeEntryV {
                    name: rem[0].path,
                    mode: rem[0].mode,
                    id: rem[0].id,
                    kind: EntryKind::Blob,
                },
            ] + restv);
        }
        Ok(out)
    } else {
        let d = copy_range(&entries[lo].path, 0, f);
        proof {
            assert(d@ =~= rem[0].path.take(f as int));
            assert(under(rem[0].path, d@));
        }
        let mut hi: usize = lo + 1;
        while hi < entries.len() && is_under(&entries[hi].path, &d)
            invariant
                lo < hi <= entries@.len(),
                evs == entries@.map_values(|e: IndexEntry| e@),
                evs.len() == entries@.len(),
                rem == evs.skip(lo as int),
                d@ == rem[0].path.take(f as int),
                forall|j: int| lo <= j < hi ==> under(evs[j].path, d@),
            decreases entries@.len() - hi,
        {
            proof {
                assert(evs[hi as int] == entries@[hi as int]@);
            }
            hi = hi + 1;
        }
        let ghost c = hi - lo;
        proof {
            assert forall|j: int| 0 <= j < c implies under(rem[j].path, d@) by {
                assert(rem[j] == evs[lo + j]);
            }
            if c < rem.len() {
                assert(rem[c as int] == evs[hi as int]);
                assert(evs[hi as int] == entries@[hi as int]@);
            }
            lemma_run_len_char(rem, d@, c as int);
        }
        let mut sub: Vec<IndexEntry> = Vec::new();
        let mut j: usize = lo;
        while j < hi
            invariant
                lo <= j <= hi <= entries@.len(),
                f < rem[0].path.len(),
                evs == entries@.map_values(|e: IndexEntry| e@),
                evs.len() == entries@.len(),
                rem == evs.skip(lo as int),
                forall|k: int| lo <= k < hi ==> under(evs[k].path, d@),
                d@.len() == f,
                sub@.map_values(|e: IndexEntry| e@) == strip_pref(
                    rem.take(j - lo),
                    f as int + 1,
                ),
            decreases hi - j,
        {
            proof {
                assert(evs[j as int] == entries@[j as int]@);
                assert(under(evs[j as int].path, d@));
                assert(entries@[j as int]@.path.len() > f);
            }
            let p = &entries[j].path;
            let plen = p.len();
            proof {
                assert(f < p@.len());
            }
            let e = IndexEntry {
                path: copy_range(p, f + 1, plen),
                id: entries[j].id.dup(),
                mode: entries[j].mode,
                size: entries[j].size,
            };
            proof {
                assert(e@.path =~= evs[j as int].path.skip(f as int + 1));
            }
            let ghost sub0 = sub@;
            sub.push(e);
            proof {
                let lhs = sub@.map_values(|e: IndexEntry| e@);
                let rhs = strip_pref(rem.take(j - lo + 1), f as int + 1);
                assert(rem.len() == evs.len() - lo);
                assert(j - lo + 1 <= rem.len());
                assert(sub0.map_values(|e: IndexEntry| e@) == strip_pref(
                    rem.take(j - lo),
                    f as int + 1,
                ));
                assert(sub0.map_values(|e: IndexEntry| e@).len() == sub0.len());
                assert(strip_pref(rem.take(j - lo), f as int + 1).len() == j - lo);
                assert(sub0.len() == j - lo);
                assert(sub@.len() == j - lo + 1);
                assert(rhs.len() == j - lo + 1);
                assert(lhs.len() == rhs.len());
                assert forall|i: int| 0 <= i < lhs.len() implies lhs[i] == rhs[i] by {
                    if i < j - lo {
                        assert(sub@[i] == sub0[i]);
                        assert(sub0.map_values(|e: IndexEntry| e@)[i] == strip_pref(
                            rem.take(j - lo),
                            f as int + 1,
                        )[i]);
                        assert(rem.take(j - lo)[i] == rem[i]);
                        assert(rem.take(j - lo + 1)[i] == rem[i]);
                    } else {
                        assert(sub@[i] == e);
                        assert(rem.take(j - lo + 1)[i] == rem[j - lo]);
                        assert(rem[j - lo] == evs[j as int]);
                        assert(e@ == rhs[i]);
                    }
                }
                assert(lhs =~= rhs);
            }
            j = j + 1;
        }
        proof {
            assert(sub@.map_values(|e: IndexEntry| e@) =~= strip_pref(
                rem.take(c as int),
                f as int + 1,
            ));
            lemma_group_front(rem);
            assert(sub@.map_values(|e: IndexEntry| e@).skip(0) =~= sub@.map_values(
                |e: IndexEntry| e@,
            ));
        }
        let subes = match build_group(store, &sub, 0) {
            Ok(v) => v,
            Err(e) => {
                return Err(e);
            }
        };
        let ghost m1 = store@;
        let ghost subesv = subes@.map_values(|t: TreeEntry| t@);
        let tobj = Object::Tree(subes);
        proof {
            assert(tobj@ == ObjectV::Tree(subesv));
        }
        let tid = match store.put(tobj) {
            Ok(id) => id,
            Err(e) => {
                return Err(e);
            }
        };
        proof {
            lemma_put_map_monotone(m1, ObjectV::Tree(subesv));
            vstd::map_lib::lemma_submap_of_trans(m0, m1, store@);
            lemma_sum_split(rem, c as int);
            assert(rem.skip(c as int) =~= evs.skip(hi as int));
        }
        let ghost m2 = store@;
        let rest = match build_group(store, entries, hi) {
            Ok(v) => v,
            Err(e) => {
                proof {
                    vstd::map_lib::lemma_submap_of_trans(m0, m2, store@);
                }
                return Err(e);
            }
        };
        proof {
            vstd::map_lib::lemma_submap_of_trans(m0, m2, store@);
        }
        let ghost restv = rest@.map_values(|t: TreeEntry| t@);
        let mut out = rest;
        out.insert(0, TreeEntry { name: d, mode: MODE_DIR, id: tid, kind: EntryKind::Tree });
        proof {
            assert(out@.map_values(|t: TreeEntry| t@) =~= seq![
                TreeEntryV {
                    name: rem[0].path.take(f as int),
                    mode: MODE_DIR,
                    id: id_of(ObjectV::Tree(subesv)),
                    kind: EntryKind::Tree,
                },
            ] + restv);
        }
        Ok(out)
    }
}

} // verus!
