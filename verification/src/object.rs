//! The immutable objects of the core: blobs, trees and commits, together with
//! their canonical serialization. An object's id is the digest of its
//! serialized form, so identical contents always receive identical ids.

use vstd::prelude::*;
use vstd::bytes::lemma_auto_spec_u64_to_from_le_bytes;
use vstd::bytes::spec_u64_from_le_bytes;
use vstd::bytes::spec_u64_to_le_bytes;
use vstd::bytes::u64_from_le_bytes;
use vstd::bytes::u64_to_le_bytes;
use crate::oid::ObjectId;
use crate::error::Error;
use crate::oid::digest_of;
use crate::oid::copy_bytes;
use crate::oid::bytes_eq;

verus! {

/// What kind of object a tree entry points at.
#[derive(Clone, Copy, Debug, PartialEq, Eq, Structural)]
pub enum EntryKind {
    Blob,
    Tree,
}

/// One named slot of a tree: a file or subtree of a directory snapshot.
pub struct TreeEntry {
    pub name: Vec<u8>,
    pub mode: u32,
    pub id: ObjectId,
    pub kind: EntryKind,
}

/// The mathematical value of a tree entry.
#[verifier::ext_equal]
pub ghost struct TreeEntryV {
    pub name: Seq<u8>,
    pub mode: u32,
    pub id: Seq<u8>,
    pub kind: EntryKind,
}

impl View for TreeEntry {
    type V = TreeEntryV;

    open spec fn view(&self) -> TreeEntryV {
        TreeEntryV { name: self.name@, mode: self.mode, id: self.id@, kind: self.kind }
    }
}

/// An identity together with the moment it acted.
pub struct Signature {
    pub name: Vec<u8>,
    pub timestamp: u64,
}

/// The mathematical value of a signature.
#[verifier::ext_equal]
pub ghost struct SignatureV {
    pub name: Seq<u8>,
    pub timestamp: u64,
}

impl View for Signature {
    type V = SignatureV;

    open spec fn view(&self) -> SignatureV {
        SignatureV { name: self.name@, timestamp: self.timestamp }
    }
}

/// A snapshot plus its lineage: tree, parent links and metadata.
pub struct CommitData {
    pub tree: ObjectId,
    pub parents: Vec<ObjectId>,
    pub author: Signature,
    pub committer: Signature,
    pub message: Vec<u8>,
}

/// The mathematical value of a commit.
#[verifier::ext_equal]
pub ghost struct CommitV {
    pub tree: Seq<u8>,
    pub parents: Seq<Seq<u8>>,
    pub author: SignatureV,
    pub committer: SignatureV,
    pub message: Seq<u8>,
}

impl View for CommitData {
    type V = CommitV;

    open spec fn view(&self) -> CommitV {
        CommitV {
            tree: self.tree@,
            parents: self.parents@.map_values(|p: ObjectId| p@),
            author: self.author@,
            committer: self.committer@,
            message: self.message@,
        }
    }
}

/// An immutable unit of storage.
pub enum Object {
    Blob(Vec<u8>),
    Tree(Vec<TreeEntry>),
    Commit(CommitData),
}

/// The mathematical value of an object.
#[verifier::ext_equal]
pub ghost enum ObjectV {
    Blob(Seq<u8>),
    Tree(Seq<TreeEntryV>),
    Commit(CommitV),
}

impl View for Object {
    type V = ObjectV;

    open spec fn view(&self) -> ObjectV {
        match self {
            Object::Blob(b) => ObjectV::Blob(b@),
            Object::Tree(es) => ObjectV::Tree(es@.map_values(|e: TreeEntry| e@)),
            Object::Commit(c) => ObjectV::Commit(c@),
        }
    }
}

/// The kind tag of an object.
#[derive(Clone, Copy, Debug, PartialEq, Eq, Structural)]
pub enum ObjectKind {
    Blob,
    Tree,
    Commit,
}

impl Object {
    /// The kind tag of this object.
    pub fn kind(&self) -> (r: ObjectKind)
        ensures
            r == ObjectKind::Blob <==> self@ is Blob,
            r == ObjectKind::Tree <==> self@ is Tree,
            r == ObjectKind::Commit <==> self@ is Commit,
    {
        match self {
            Object::Blob(_) => ObjectKind::Blob,
            Object::Tree(_) => ObjectKind::Tree,
            Object::Commit(_) => ObjectKind::Commit,
        }
    }
}

// ---------------------------------------------------------------------------
// Canonical serialization. Every variable-width field is preceded by its
// length, and the whole object by a kind tag and its body's length, so equal
// values always serialize to equal bytes.
// ---------------------------------------------------------------------------

/// A length-prefixed byte field.
pub open spec fn ser_field(b: Seq<u8>) -> Seq<u8> {
    spec_u64_to_le_bytes(b.len() as u64) + b
}

/// The tag byte of an entry kind.
pub open spec fn entry_kind_byte(k: EntryKind) -> u8 {
    match k {
        EntryKind::Blob => 0,
        EntryKind::Tree => 1,
    }
}

/// One serialized tree entry.
pub open spec fn ser_entry(e: TreeEntryV) -> Seq<u8> {
    ser_field(e.name) + spec_u64_to_le_bytes(e.mode as u64) + seq![entry_kind_byte(e.kind)]
        + ser_field(e.id)
}

/// The concatenation of the serialized entries of a tree, in order.
pub open spec fn ser_entries(es: Seq<TreeEntryV>) -> Seq<u8>
    decreases es.len(),
{
    if es.len() == 0 {
        Seq::empty()
    } else {
        ser_entries(es.drop_last()) + ser_entry(es.last())
    }
}

/// The concatenation of a sequence of length-prefixed ids, in order.
pub open spec fn ser_ids(ids: Seq<Seq<u8>>) -> Seq<u8>
    decreases ids.len(),
{
    if ids.len() == 0 {
        Seq::empty()
    } else {
        ser_ids(ids.drop_last()) + ser_field(ids.last())
    }
}

/// A serialized signature.
pub open spec fn ser_sig(s: SignatureV) -> Seq<u8> {
    ser_field(s.name) + spec_u64_to_le_bytes(s.timestamp)
}

/// The serialized body of an object, without the kind tag and length header.
pub open spec fn body_of(o: ObjectV) -> Seq<u8> {
    match o {
        ObjectV::Blob(b) => b,
        ObjectV::Tree(es) => spec_u64_to_le_bytes(es.len() as u64) + ser_entries(es),
        ObjectV::Commit(c) => ser_field(c.tree) + spec_u64_to_le_bytes(c.parents.len() as u64)
            + ser_ids(c.parents) + ser_sig(c.author) + ser_sig(c.committer) + ser_field(c.message),
    }
}

/// The kind tag byte of an object.
pub open spec fn kind_byte(o: ObjectV) -> u8 {
    match o {
        ObjectV::Blob(_) => 0,
        ObjectV::Tree(_) => 1,
        ObjectV::Commit(_) => 2,
    }
}

/// The full canonical serialization: kind tag, body length, body.
pub open spec fn ser_object(o: ObjectV) -> Seq<u8> {
    seq![kind_byte(o)] + spec_u64_to_le_bytes(body_of(o).len() as u64) + body_of(o)
}

/// The content address of an object: the digest of its serialization.
pub open spec fn id_of(o: ObjectV) -> Seq<u8> {
    digest_of(ser_object(o))
}

/// Appends raw bytes.
fn push_raw(out: &mut Vec<u8>, b: &Vec<u8>)
    ensures
        final(out)@ == old(out)@ + b@,
{
    let mut i: usize = 0;
    while i < b.len()
        invariant
            i <= b.len(),
            out@ == old(out)@ + b@.take(i as int),
        decreases b.len() - i,
    {
        out.push(b[i]);
        i = i + 1;
        proof {
            assert(out@ =~= old(out)@ + b@.take(i as int));
        }
    }
    proof {
        assert(out@ =~= old(out)@ + b@);
    }
}

/// Appends a u64 in its eight-byte little-endian form.
fn push_u64(out: &mut Vec<u8>, x: u64)
    ensures
        final(out)@ == old(out)@ + spec_u64_to_le_bytes(x),
{
    let mut b = u64_to_le_bytes(x);
    out.append(&mut b);
}

/// Appends a length-prefixed byte field.
fn push_field(out: &mut Vec<u8>, b: &Vec<u8>)
    ensures
        final(out)@ == old(out)@ + ser_field(b@),
{
    push_u64(out, b.len() as u64);
    push_raw(out, b);
    proof {
        assert(out@ =~= old(out)@ + ser_field(b@));
    }
}

/// Appends one serialized tree entry.
fn push_entry(out: &mut Vec<u8>, e: &TreeEntry)
    ensures
        final(out)@ == old(out)@ + ser_entry(e@),
{
    push_field(out, &e.name);
    push_u64(out, e.mode as u64);
    match e.kind {
        EntryKind::Blob => out.push(0u8),
        EntryKind::Tree => out.push(1u8),
    }
    push_field(out, e.id.as_bytes());
    proof {
        assert(out@ =~= old(out)@ + ser_entry(e@));
    }
}

/// Appends a serialized signature.
fn push_sig(out: &mut Vec<u8>, s: &Signature)
    ensures
        final(out)@ == old(out)@ + ser_sig(s@),
{
    push_field(out, &s.name);
    push_u64(out, s.timestamp);
    proof {
        assert(out@ =~= old(out)@ + ser_sig(s@));
    }
}

proof fn lemma_ser_entries_snoc(s: Seq<TreeEntryV>, i: int)
    requires
        0 <= i < s.len(),
    ensures
        ser_entries(s.take(i + 1)) == ser_entries(s.take(i)) + ser_entry(s[i]),
{
    assert(s.take(i + 1).drop_last() =~= s.take(i));
    assert(s.take(i + 1).last() == s[i]);
}

proof fn lemma_ser_ids_snoc(s: Seq<Seq<u8>>, i: int)
    requires
        0 <= i < s.len(),
    ensures
        ser_ids(s.take(i + 1)) == ser_ids(s.take(i)) + ser_field(s[i]),
{
    assert(s.take(i + 1).drop_last() =~= s.take(i));
    assert(s.take(i + 1).last() == s[i]);
}

/// The serialized body of an object.
fn serialize_body(o: &Object) -> (r: Vec<u8>)
    ensures
        r@ == body_of(o@),
{
    let mut body: Vec<u8> = Vec::new();
    match o {
        Object::Blob(b) => {
            push_raw(&mut body, b);
        }
        Object::Tree(es) => {
            let ghost esv = es@.map_values(|e: TreeEntry| e@);
            push_u64(&mut body, es.len() as u64);
            let mut i: usize = 0;
            while i < es.len()
                invariant
                    i <= es.len(),
                    esv == es@.map_values(|e: TreeEntry| e@),
                    esv.len() == es@.len(),
                    body@ == spec_u64_to_le_bytes(esv.len() as u64) + ser_entries(
                        esv.take(i as int),
                    ),
                decreases es.len() - i,
            {
                push_entry(&mut body, &es[i]);
                proof {
                    lemma_ser_entries_snoc(esv, i as int);
                    assert(esv[i as int] == es@[i as int]@);
                    assert(body@ =~= spec_u64_to_le_bytes(esv.len() as u64) + ser_entries(
                        esv.take(i + 1),
                    ));
                }
                i = i + 1;
            }
            proof {
                assert(esv.take(es@.len() as int) =~= esv);
            }
        }
        Object::Commit(c) => {
            let ghost cv = c@;
            push_field(&mut body, c.tree.as_bytes());
            push_u64(&mut body, c.parents.len() as u64);
            let ghost pv = c.parents@.map_values(|p: ObjectId| p@);
            let ghost base = ser_field(cv.tree) + spec_u64_to_le_bytes(cv.parents.len() as u64);
            proof {
                assert(body@ =~= base);
            }
            let mut i: usize = 0;
            while i < c.parents.len()
                invariant
                    i <= c.parents.len(),
                    pv == c.parents@.map_values(|p: ObjectId| p@),
                    pv.len() == c.parents@.len(),
                    body@ == base + ser_ids(pv.take(i as int)),
                decreases c.parents.len() - i,
            {
                push_field(&mut body, c.parents[i].as_bytes());
                proof {
                    lemma_ser_ids_snoc(pv, i as int);
                    assert(pv[i as int] == c.parents@[i as int]@);
                    assert(body@ =~= base + ser_ids(pv.take(i + 1)));
                }
                i = i + 1;
            }
            proof {
                assert(pv.take(c.parents@.len() as int) =~= pv);
            }
            push_sig(&mut body, &c.author);
            push_sig(&mut body, &c.committer);
            push_field(&mut body, &c.message);
            proof {
                assert(body@ =~= body_of(ObjectV::Commit(cv)));
            }
        }
    }
    body
}

/// The full canonical serialization of an object.
pub fn serialize_object(o: &Object) -> (r: Vec<u8>)
    ensures
        r@ == ser_object(o@),
{
    let body = serialize_body(o);
    let mut r: Vec<u8> = Vec::new();
    match o {
        Object::Blob(_) => r.push(0u8),
        Object::Tree(_) => r.push(1u8),
        Object::Commit(_) => r.push(2u8),
    }
    push_u64(&mut r, body.len() as u64);
    push_raw(&mut r, &body);
    proof {
        assert(r@ =~= ser_object(o@));
    }
    r
}

/// The content address of an object.
pub fn object_id(o: &Object) -> (r: ObjectId)
    ensures
        r@ == id_of(o@),
        r@.len() == 32,
{
    let s = serialize_object(o);
    ObjectId::for_bytes(&s)
}

// ---------------------------------------------------------------------------
// Parsing: the inverse of serialization, for reading persisted objects back.
// Each parser consumes a prefix and hands back the rest; a parsed object
// must account for its bytes exactly.
// ---------------------------------------------------------------------------

/// Reads a little-endian u64.
pub open spec fn parse_u64(s: Seq<u8>) -> Option<(u64, Seq<u8>)> {
    if s.len() >= 8 {
        Some((spec_u64_from_le_bytes(s.take(8)), s.skip(8)))
    } else {
        None
    }
}

/// Reads a length-prefixed byte field.
pub open spec fn parse_fld(s: Seq<u8>) -> Option<(Seq<u8>, Seq<u8>)> {
    match parse_u64(s) {
        Some(t) => {
            if t.1.len() >= t.0 {
                Some((t.1.take(t.0 as int), t.1.skip(t.0 as int)))
            } else {
                None
            }
        }
        None => None,
    }
}

/// Reads a signature.
pub open spec fn parse_sig(s: Seq<u8>) -> Option<(SignatureV, Seq<u8>)> {
    match parse_fld(s) {
        Some(nm) => match parse_u64(nm.1) {
            Some(ts) => Some((SignatureV { name: nm.0, timestamp: ts.0 }, ts.1)),
            None => None,
        },
        None => None,
    }
}

/// Reads one tree entry.
pub open spec fn parse_entry(s: Seq<u8>) -> Option<(TreeEntryV, Seq<u8>)> {
    match parse_fld(s) {
        Some(nm) => match parse_u64(nm.1) {
            Some(md) => {
                if md.0 <= u32::MAX && md.1.len() >= 1 && (md.1[0] == 0 || md.1[0] == 1) {
                    let kind = if md.1[0] == 0 {
                        EntryKind::Blob
                    } else {
                        EntryKind::Tree
                    };
                    match parse_fld(md.1.skip(1)) {
                        Some(idt) => Some(
                            (
                                TreeEntryV {
                                    name: nm.0,
                                    mode: md.0 as u32,
                                    id: idt.0,
                                    kind: kind,
                                },
                                idt.1,
                            ),
                        ),
                        None => None,
                    }
                } else {
                    None
                }
            }
            None => None,
        },
        None => None,
    }
}

/// Reads `n` tree entries.
pub open spec fn parse_entries(n: nat, s: Seq<u8>) -> Option<(Seq<TreeEntryV>, Seq<u8>)>
    decreases n,
{
    if n == 0 {
        Some((Seq::empty(), s))
    } else {
        match parse_entry(s) {
            Some(e) => match parse_entries((n - 1) as nat, e.1) {
                Some(r) => Some((seq![e.0] + r.0, r.1)),
                None => None,
            },
            None => None,
        }
    }
}

/// Reads `n` length-prefixed ids.
pub open spec fn parse_ids(n: nat, s: Seq<u8>) -> Option<(Seq<Seq<u8>>, Seq<u8>)>
    decreases n,
{
    if n == 0 {
        Some((Seq::empty(), s))
    } else {
        match parse_fld(s) {
            Some(e) => match parse_ids((n - 1) as nat, e.1) {
                Some(r) => Some((seq![e.0] + r.0, r.1)),
                None => None,
            },
            None => None,
        }
    }
}

/// Reads a commit body.
pub open spec fn parse_commit(s: Seq<u8>) -> Option<(CommitV, Seq<u8>)> {
    match parse_fld(s) {
        Some(tr) => match parse_u64(tr.1) {
            Some(cnt) => match parse_ids(cnt.0 as nat, cnt.1) {
                Some(ps) => match parse_sig(ps.1) {
                    Some(au) => match parse_sig(au.1) {
                        Some(co) => match parse_fld(co.1) {
                            Some(ms) => Some(
                                (
                                    CommitV {
                                        tree: tr.0,
                                        parents: ps.0,
                                        author: au.0,
                                        committer: co.0,
                                        message: ms.0,
                                    },
                                    ms.1,
                                ),
                            ),
                            None => None,
                        },
                        None => None,
                    },
                    None => None,
                },
                None => None,
            },
            None => None,
        },
        None => None,
    }
}

/// Reads a whole serialized object: kind tag, body length, body, with
/// nothing left over.
pub open spec fn parse_object_spec(s: Seq<u8>) -> Option<ObjectV> {
    if s.len() < 1 {
        None
    } else {
        let k = s[0];
        match parse_u64(s.skip(1)) {
            Some(bl) => {
                if bl.1.len() == bl.0 {
                    let body = bl.1;
                    if k == 0 {
                        Some(ObjectV::Blob(body))
                    } else if k == 1 {
                        match parse_u64(body) {
                            Some(cnt) => match parse_entries(cnt.0 as nat, cnt.1) {
                                Some(es) => {
                                    if es.1.len() == 0 {
                                        Some(ObjectV::Tree(es.0))
                                    } else {
                                        None
                                    }
                                }
                                None => None,
                            },
                            None => None,
                        }
                    } else if k == 2 {
                        match parse_commit(body) {
                            Some(c) => {
                                if c.1.len() == 0 {
                                    Some(ObjectV::Commit(c.0))
                                } else {
                                    None
                                }
                            }
                            None => None,
                        }
                    } else {
                        None
                    }
                } else {
                    None
                }
            }
            None => None,
        }
    }
}

/// A signature whose field fits the length header.
pub open spec fn sig_bounded(s: SignatureV) -> bool {
    s.name.len() <= u64::MAX
}

/// A tree entry whose fields fit their length headers.
pub open spec fn entry_bounded(e: TreeEntryV) -> bool {
    e.name.len() <= u64::MAX && e.id.len() <= u64::MAX
}

/// An object whose serialization headers hold exact lengths; every object a
/// machine can build satisfies this.
pub open spec fn obj_bounded(o: ObjectV) -> bool {
    body_of(o).len() <= u64::MAX && match o {
        ObjectV::Blob(_) => true,
        ObjectV::Tree(es) => es.len() <= u64::MAX && forall|i: int|
            0 <= i < es.len() ==> entry_bounded(#[trigger] es[i]),
        ObjectV::Commit(c) => c.tree.len() <= u64::MAX && c.parents.len() <= u64::MAX && (forall|
            i: int,
        |
            0 <= i < c.parents.len() ==> #[trigger] c.parents[i].len() <= u64::MAX) && sig_bounded(
            c.author,
        ) && sig_bounded(c.committer) && c.message.len() <= u64::MAX,
    }
}

proof fn lemma_parse_u64_prefix(x: u64, rest: Seq<u8>)
    ensures
        parse_u64(spec_u64_to_le_bytes(x) + rest) == Some((x, rest)),
{
    lemma_auto_spec_u64_to_from_le_bytes();
    let s = spec_u64_to_le_bytes(x) + rest;
    assert(s.take(8) =~= spec_u64_to_le_bytes(x));
    assert(s.skip(8) =~= rest);
}

proof fn lemma_parse_fld_prefix(b: Seq<u8>, rest: Seq<u8>)
    requires
        b.len() <= u64::MAX,
    ensures
        parse_fld(ser_field(b) + rest) == Some((b, rest)),
{
    let n = b.len() as u64;
    assert(ser_field(b) + rest =~= spec_u64_to_le_bytes(n) + (b + rest));
    lemma_parse_u64_prefix(n, b + rest);
    assert((b + rest).take(n as int) =~= b);
    assert((b + rest).skip(n as int) =~= rest);
}

proof fn lemma_parse_sig_prefix(g: SignatureV, rest: Seq<u8>)
    requires
        sig_bounded(g),
    ensures
        parse_sig(ser_sig(g) + rest) == Some((g, rest)),
{
    assert(ser_sig(g) + rest =~= ser_field(g.name) + (spec_u64_to_le_bytes(g.timestamp) + rest));
    lemma_parse_fld_prefix(g.name, spec_u64_to_le_bytes(g.timestamp) + rest);
    lemma_parse_u64_prefix(g.timestamp, rest);
    assert(parse_sig(ser_sig(g) + rest) == Some((SignatureV { name: g.name, timestamp: g.timestamp }, rest)));
    assert(SignatureV { name: g.name, timestamp: g.timestamp } =~= g);
}

proof fn lemma_parse_entry_prefix(e: TreeEntryV, rest: Seq<u8>)
    requires
        entry_bounded(e),
    ensures
        parse_entry(ser_entry(e) + rest) == Some((e, rest)),
{
    let kb = entry_kind_byte(e.kind);
    let after_name = spec_u64_to_le_bytes(e.mode as u64) + (seq![kb] + (ser_field(e.id) + rest));
    assert(ser_entry(e) + rest =~= ser_field(e.name) + after_name);
    lemma_parse_fld_prefix(e.name, after_name);
    lemma_parse_u64_prefix(e.mode as u64, seq![kb] + (ser_field(e.id) + rest));
    let after_mode = seq![kb] + (ser_field(e.id) + rest);
    assert(after_mode[0] == kb);
    assert(after_mode.len() >= 1);
    assert(after_mode.skip(1) =~= ser_field(e.id) + rest);
    lemma_parse_fld_prefix(e.id, rest);
    assert(kb == 0 || kb == 1);
    let parsed_kind = if kb == 0 {
        EntryKind::Blob
    } else {
        EntryKind::Tree
    };
    assert(parsed_kind == e.kind);
    assert((e.mode as u64) as u32 == e.mode);
    assert(parse_entry(ser_entry(e) + rest) == Some(
        (TreeEntryV { name: e.name, mode: e.mode, id: e.id, kind: e.kind }, rest),
    ));
    assert(TreeEntryV { name: e.name, mode: e.mode, id: e.id, kind: e.kind } =~= e);
}

proof fn lemma_ser_entries_front(es: Seq<TreeEntryV>)
    requires
        es.len() > 0,
    ensures
        ser_entries(es) == ser_entry(es[0]) + ser_entries(es.drop_first()),
    decreases es.len(),
{
    if es.len() == 1 {
        assert(es.drop_last() =~= Seq::<TreeEntryV>::empty());
        assert(es.drop_first() =~= Seq::<TreeEntryV>::empty());
        assert(es.last() == es[0]);
        assert(ser_entries(es) =~= ser_entry(es[0]) + ser_entries(es.drop_first()));
    } else {
        let dl = es.drop_last();
        lemma_ser_entries_front(dl);
        assert(dl[0] == es[0]);
        assert(es.drop_first().drop_last() =~= dl.drop_first());
        assert(es.drop_first().last() == es.last());
        assert(ser_entries(es.drop_first()) == ser_entries(dl.drop_first()) + ser_entry(es.last()));
        assert((ser_entry(es[0]) + ser_entries(dl.drop_first())) + ser_entry(es.last()) =~= ser_entry(
            es[0],
        ) + (ser_entries(dl.drop_first()) + ser_entry(es.last())));
    }
}

proof fn lemma_ser_ids_front(ids: Seq<Seq<u8>>)
    requires
        ids.len() > 0,
    ensures
        ser_ids(ids) == ser_field(ids[0]) + ser_ids(ids.drop_first()),
    decreases ids.len(),
{
    if ids.len() == 1 {
        assert(ids.drop_last() =~= Seq::<Seq<u8>>::empty());
        assert(ids.drop_first() =~= Seq::<Seq<u8>>::empty());
        assert(ids.last() == ids[0]);
        assert(ser_ids(ids) =~= ser_field(ids[0]) + ser_ids(ids.drop_first()));
    } else {
        let dl = ids.drop_last();
        lemma_ser_ids_front(dl);
        assert(dl[0] == ids[0]);
        assert(ids.drop_first().drop_last() =~= dl.drop_first());
        assert(ids.drop_first().last() == ids.last());
        assert(ser_ids(ids.drop_first()) == ser_ids(dl.drop_first()) + ser_field(ids.last()));
        assert((ser_field(ids[0]) + ser_ids(dl.drop_first())) + ser_field(ids.last()) =~= ser_field(
            ids[0],
        ) + (ser_ids(dl.drop_first()) + ser_field(ids.last())));
    }
}

proof fn lemma_parse_entries_prefix(es: Seq<TreeEntryV>, rest: Seq<u8>)
    requires
        forall|i: int| 0 <= i < es.len() ==> entry_bounded(#[trigger] es[i]),
    ensures
        parse_entries(es.len() as nat, ser_entries(es) + rest) == Some((es, rest)),
    decreases es.len(),
{
    if es.len() == 0 {
        assert(ser_entries(es) + rest =~= rest);
        assert(parse_entries(0, rest) == Some((Seq::<TreeEntryV>::empty(), rest)));
        assert(Seq::<TreeEntryV>::empty() =~= es);
    } else {
        lemma_ser_entries_front(es);
        let t = es.drop_first();
        assert(ser_entries(es) + rest =~= ser_entry(es[0]) + (ser_entries(t) + rest));
        lemma_parse_entry_prefix(es[0], ser_entries(t) + rest);
        assert forall|i: int| 0 <= i < t.len() implies entry_bounded(#[trigger] t[i]) by {
            assert(t[i] == es[i + 1]);
        }
        lemma_parse_entries_prefix(t, rest);
        assert(seq![es[0]] + t =~= es);
    }
}

proof fn lemma_parse_ids_prefix(ids: Seq<Seq<u8>>, rest: Seq<u8>)
    requires
        forall|i: int| 0 <= i < ids.len() ==> #[trigger] ids[i].len() <= u64::MAX,
    ensures
        parse_ids(ids.len() as nat, ser_ids(ids) + rest) == Some((ids, rest)),
    decreases ids.len(),
{
    if ids.len() == 0 {
        assert(ser_ids(ids) + rest =~= rest);
        assert(parse_ids(0, rest) == Some((Seq::<Seq<u8>>::empty(), rest)));
        assert(Seq::<Seq<u8>>::empty() =~= ids);
    } else {
        lemma_ser_ids_front(ids);
        let t = ids.drop_first();
        assert(ser_ids(ids) + rest =~= ser_field(ids[0]) + (ser_ids(t) + rest));
        lemma_parse_fld_prefix(ids[0], ser_ids(t) + rest);
        assert forall|i: int| 0 <= i < t.len() implies #[trigger] t[i].len() <= u64::MAX by {
            assert(t[i] == ids[i + 1]);
        }
        lemma_parse_ids_prefix(t, rest);
        assert(seq![ids[0]] + t =~= ids);
    }
}

/// Law: parsing is the inverse of serialization. Every object a machine
/// can hold parses back from its canonical serialization, field for field.
pub proof fn lemma_parse_object_round_trip(o: ObjectV)
    requires
        obj_bounded(o),
    ensures
        parse_object_spec(ser_object(o)) == Some(o),
{
    let s = ser_object(o);
    let body = body_of(o);
    let n = body.len() as u64;
    assert(s[0] == kind_byte(o));
    assert(s.skip(1) =~= spec_u64_to_le_bytes(n) + body);
    lemma_parse_u64_prefix(n, body);
    match o {
        ObjectV::Blob(b) => {
            assert(parse_object_spec(s) == Some(ObjectV::Blob(body)));
        }
        ObjectV::Tree(es) => {
            assert(body =~= spec_u64_to_le_bytes(es.len() as u64) + (ser_entries(es) + Seq::empty()));
            lemma_parse_u64_prefix(es.len() as u64, ser_entries(es) + Seq::empty());
            lemma_parse_entries_prefix(es, Seq::empty());
            assert(parse_object_spec(s) == Some(ObjectV::Tree(es)));
        }
        ObjectV::Commit(c) => {
            let r5 = ser_field(c.message) + Seq::<u8>::empty();
            let r4 = ser_sig(c.committer) + r5;
            let r3 = ser_sig(c.author) + r4;
            let r2 = ser_ids(c.parents) + r3;
            let r1 = spec_u64_to_le_bytes(c.parents.len() as u64) + r2;
            assert(body =~= ser_field(c.tree) + r1);
            lemma_parse_fld_prefix(c.tree, r1);
            lemma_parse_u64_prefix(c.parents.len() as u64, r2);
            lemma_parse_ids_prefix(c.parents, r3);
            lemma_parse_sig_prefix(c.author, r4);
            lemma_parse_sig_prefix(c.committer, r5);
            assert(r5 =~= ser_field(c.message) + Seq::<u8>::empty());
            lemma_parse_fld_prefix(c.message, Seq::empty());
            assert(parse_commit(body) == Some(
                (
                    CommitV {
                        tree: c.tree,
                        parents: c.parents,
                        author: c.author,
                        committer: c.committer,
                        message: c.message,
                    },
                    Seq::<u8>::empty(),
                ),
            ));
            assert(CommitV {
                tree: c.tree,
                parents: c.parents,
                author: c.author,
                committer: c.committer,
                message: c.message,
            } =~= c);
            assert(parse_object_spec(s) == Some(ObjectV::Commit(c)));
        }
    }
}

fn read_range(bytes: &Vec<u8>, a: usize, b: usize) -> (r: Vec<u8>)
    requires
        a <= b <= bytes@.len(),
    ensures
        r@ == bytes@.subrange(a as int, b as int),
{
    vstd::slice::slice_to_vec(vstd::slice::slice_subrange(bytes.as_slice(), a, b))
}

fn take_u64(bytes: &Vec<u8>, pos: usize) -> (r: Option<(u64, usize)>)
    requires
        pos <= bytes@.len(),
    ensures
        r matches Some(t) ==> (pos <= t.1 <= bytes@.len() && parse_u64(bytes@.skip(pos as int))
            == Some((t.0, bytes@.skip(t.1 as int)))),
        r is None ==> parse_u64(bytes@.skip(pos as int)) is None,
{
    if bytes.len() - pos >= 8 {
        let sub = vstd::slice::slice_subrange(bytes.as_slice(), pos, pos + 8);
        let x = u64_from_le_bytes(sub);
        proof {
            assert(sub@ =~= bytes@.skip(pos as int).take(8));
            assert(bytes@.skip(pos as int).skip(8) =~= bytes@.skip(pos as int + 8));
        }
        Some((x, pos + 8))
    } else {
        None
    }
}

fn take_fld(bytes: &Vec<u8>, pos: usize) -> (r: Option<(Vec<u8>, usize)>)
    requires
        pos <= bytes@.len(),
    ensures
        r matches Some(t) ==> (pos <= t.1 <= bytes@.len() && parse_fld(bytes@.skip(pos as int))
            == Some((t.0@, bytes@.skip(t.1 as int)))),
        r is None ==> parse_fld(bytes@.skip(pos as int)) is None,
{
    match take_u64(bytes, pos) {
        None => None,
        Some((n, p1)) => {
            if n <= (bytes.len() - p1) as u64 {
                let nn = n as usize;
                let v = read_range(bytes, p1, p1 + nn);
                proof {
                    assert(bytes@.skip(p1 as int).take(n as int) =~= bytes@.subrange(
                        p1 as int,
                        p1 as int + nn,
                    ));
                    assert(bytes@.skip(p1 as int).skip(n as int) =~= bytes@.skip(
                        p1 as int + nn,
                    ));
                }
                Some((v, p1 + nn))
            } else {
                proof {
                    assert(bytes@.skip(p1 as int).len() < n);
                }
                None
            }
        }
    }
}

fn take_sig(bytes: &Vec<u8>, pos: usize) -> (r: Option<(Signature, usize)>)
    requires
        pos <= bytes@.len(),
    ensures
        r matches Some(t) ==> (pos <= t.1 <= bytes@.len() && parse_sig(bytes@.skip(pos as int))
            == Some((t.0@, bytes@.skip(t.1 as int)))),
        r is None ==> parse_sig(bytes@.skip(pos as int)) is None,
{
    match take_fld(bytes, pos) {
        None => None,
        Some((name, p1)) => {
            match take_u64(bytes, p1) {
                None => None,
                Some((ts, p2)) => Some((Signature { name, timestamp: ts }, p2)),
            }
        }
    }
}

fn take_entry(bytes: &Vec<u8>, pos: usize) -> (r: Option<(TreeEntry, usize)>)
    requires
        pos <= bytes@.len(),
    ensures
        r matches Some(t) ==> (pos <= t.1 <= bytes@.len() && parse_entry(bytes@.skip(pos as int))
            == Some((t.0@, bytes@.skip(t.1 as int)))),
        r is None ==> parse_entry(bytes@.skip(pos as int)) is None,
{
    let nm = match take_fld(bytes, pos) {
        None => {
            return None;
        }
        Some(t) => t,
    };
    let md = match take_u64(bytes, nm.1) {
        None => {
            return None;
        }
        Some(t) => t,
    };
    if !(md.0 <= u32::MAX as u64 && md.1 < bytes.len() && (bytes[md.1] == 0 || bytes[md.1] == 1)) {
        proof {
            assert(bytes@.skip(md.1 as int).len() >= 1 ==> bytes@.skip(md.1 as int)[0]
                == bytes@[md.1 as int]);
        }
        return None;
    }
    let kind = if bytes[md.1] == 0 {
        EntryKind::Blob
    } else {
        EntryKind::Tree
    };
    proof {
        assert(bytes@.skip(md.1 as int)[0] == bytes@[md.1 as int]);
        assert(bytes@.skip(md.1 as int).skip(1) =~= bytes@.skip(md.1 as int + 1));
    }
    match take_fld(bytes, md.1 + 1) {
        None => None,
        Some((idb, p3)) => Some(
            (
                TreeEntry { name: nm.0, mode: md.0 as u32, id: ObjectId::from_raw(idb), kind },
                p3,
            ),
        ),
    }
}

fn take_entries(bytes: &Vec<u8>, pos: usize, n: u64) -> (r: Option<(Vec<TreeEntry>, usize)>)
    requires
        pos <= bytes@.len(),
    ensures
        r matches Some(t) ==> (pos <= t.1 <= bytes@.len() && parse_entries(
            n as nat,
            bytes@.skip(pos as int),
        ) == Some((t.0@.map_values(|e: TreeEntry| e@), bytes@.skip(t.1 as int)))),
        r is None ==> parse_entries(n as nat, bytes@.skip(pos as int)) is None,
{
    let mut out: Vec<TreeEntry> = Vec::new();
    let mut cur: usize = pos;
    let mut i: u64 = 0;
    proof {
        assert(out@.map_values(|e: TreeEntry| e@) =~= Seq::<TreeEntryV>::empty());
    }
    while i < n
        invariant
            i <= n,
            pos <= cur <= bytes@.len(),
            ({
                let full = parse_entries(n as nat, bytes@.skip(pos as int));
                let outv = out@.map_values(|e: TreeEntry| e@);
                full == match parse_entries((n - i) as nat, bytes@.skip(cur as int)) {
                    Some(t) => Some((outv + t.0, t.1)),
                    None => None,
                }
            }),
        decreases n - i,
    {
        let ghost outv = out@.map_values(|e: TreeEntry| e@);
        match take_entry(bytes, cur) {
            None => {
                return None;
            }
            Some((e, p2)) => {
                proof {
                    assert(out@.push(e).map_values(|x: TreeEntry| x@) =~= outv.push(e@));
                    match parse_entries((n - i - 1) as nat, bytes@.skip(p2 as int)) {
                        Some(t) => {
                            assert(outv + (seq![e@] + t.0) =~= outv.push(e@) + t.0);
                        }
                        None => {}
                    }
                }
                out.push(e);
                cur = p2;
                i = i + 1;
            }
        }
    }
    proof {
        assert(parse_entries(0, bytes@.skip(cur as int)) == Some(
            (Seq::<TreeEntryV>::empty(), bytes@.skip(cur as int)),
        ));
        assert(out@.map_values(|e: TreeEntry| e@) + Seq::<TreeEntryV>::empty() =~= out@.map_values(
            |e: TreeEntry| e@,
        ));
    }
    Some((out, cur))
}

fn take_ids(bytes: &Vec<u8>, pos: usize, n: u64) -> (r: Option<(Vec<ObjectId>, usize)>)
    requires
        pos <= bytes@.len(),
    ensures
        r matches Some(t) ==> (pos <= t.1 <= bytes@.len() && parse_ids(
            n as nat,
            bytes@.skip(pos as int),
        ) == Some((t.0@.map_values(|p: ObjectId| p@), bytes@.skip(t.1 as int)))),
        r is None ==> parse_ids(n as nat, bytes@.skip(pos as int)) is None,
{
    let mut out: Vec<ObjectId> = Vec::new();
    let mut cur: usize = pos;
    let mut i: u64 = 0;
    proof {
        assert(out@.map_values(|p: ObjectId| p@) =~= Seq::<Seq<u8>>::empty());
    }
    while i < n
        invariant
            i <= n,
            pos <= cur <= bytes@.len(),
            ({
                let full = parse_ids(n as nat, bytes@.skip(pos as int));
                let outv = out@.map_values(|p: ObjectId| p@);
                full == match parse_ids((n - i) as nat, bytes@.skip(cur as int)) {
                    Some(t) => Some((outv + t.0, t.1)),
                    None => None,
                }
            }),
        decreases n - i,
    {
        let ghost outv = out@.map_values(|p: ObjectId| p@);
        match take_fld(bytes, cur) {
            None => {
                return None;
            }
            Some((b, p2)) => {
                let id = ObjectId::from_raw(b);
                proof {
                    assert(out@.push(id).map_values(|x: ObjectId| x@) =~= outv.push(id@));
                    match parse_ids((n - i - 1) as nat, bytes@.skip(p2 as int)) {
                        Some(t) => {
                            assert(outv + (seq![id@] + t.0) =~= outv.push(id@) + t.0);
                        }
                        None => {}
                    }
                }
                out.push(id);
                cur = p2;
                i = i + 1;
            }
        }
    }
    proof {
        assert(parse_ids(0, bytes@.skip(cur as int)) == Some(
            (Seq::<Seq<u8>>::empty(), bytes@.skip(cur as int)),
        ));
        assert(out@.map_values(|p: ObjectId| p@) + Seq::<Seq<u8>>::empty() =~= out@.map_values(
            |p: ObjectId| p@,
        ));
    }
    Some((out, cur))
}

/// Parses a serialized object back into its value; bytes that are not the
/// exact canonical serialization of some object are refused as `Corrupt`.
pub fn parse_object(bytes: &Vec<u8>) -> (r: Result<Object, Error>)
    ensures
        r matches Ok(o) ==> parse_object_spec(bytes@) == Some(o@),
        r matches Err(e) ==> (e == Error::Corrupt && parse_object_spec(bytes@) is None),
{
    if bytes.len() < 1 {
        return Err(Error::Corrupt);
    }
    let k = bytes[0];
    let bl = match take_u64(bytes, 1) {
        None => {
            return Err(Error::Corrupt);
        }
        Some(t) => t,
    };
    if (bytes.len() - bl.1) as u64 != bl.0 {
        return Err(Error::Corrupt);
    }
    let p1 = bl.1;
    proof {
        assert(bytes@.skip(1).skip(8) =~= bytes@.skip(p1 as int));
    }
    if k == 0 {
        let b = read_range(bytes, p1, bytes.len());
        proof {
            assert(b@ =~= bytes@.skip(p1 as int));
        }
        Ok(Object::Blob(b))
    } else if k == 1 {
        let cnt = match take_u64(bytes, p1) {
            None => {
                return Err(Error::Corrupt);
            }
            Some(t) => t,
        };
        let es = match take_entries(bytes, cnt.1, cnt.0) {
            None => {
                return Err(Error::Corrupt);
            }
            Some(t) => t,
        };
        if es.1 != bytes.len() {
            return Err(Error::Corrupt);
        }
        let r = Object::Tree(es.0);
        proof {
            assert(bytes@.skip(es.1 as int).len() == 0);
        }
        Ok(r)
    } else if k == 2 {
        let tr = match take_fld(bytes, p1) {
            None => {
                return Err(Error::Corrupt);
            }
            Some(t) => t,
        };
        let cnt = match take_u64(bytes, tr.1) {
            None => {
                return Err(Error::Corrupt);
            }
            Some(t) => t,
        };
        let ps = match take_ids(bytes, cnt.1, cnt.0) {
            None => {
                return Err(Error::Corrupt);
            }
            Some(t) => t,
        };
        let au = match take_sig(bytes, ps.1) {
            None => {
                return Err(Error::Corrupt);
            }
            Some(t) => t,
        };
        let co = match take_sig(bytes, au.1) {
            None => {
                return Err(Error::Corrupt);
            }
            Some(t) => t,
        };
        let ms = match take_fld(bytes, co.1) {
            None => {
                return Err(Error::Corrupt);
            }
            Some(t) => t,
        };
        if ms.1 != bytes.len() {
            return Err(Error::Corrupt);
        }
        let cd = CommitData {
            tree: ObjectId::from_raw(tr.0),
            parents: ps.0,
            author: au.0,
            committer: co.0,
            message: ms.0,
        };
        proof {
            assert(bytes@.skip(ms.1 as int).len() == 0);
        }
        Ok(Object::Commit(cd))
    } else {
        Err(Error::Corrupt)
    }
}

/// Parses stored bytes and re-checks them against the id they were filed
/// under; bytes that do not parse, or that hash to a different id, are
/// `Corrupt`.
pub fn load_object(expected: &ObjectId, bytes: &Vec<u8>) -> (r: Result<Object, Error>)
    ensures
        r matches Ok(o) ==> (parse_object_spec(bytes@) == Some(o@) && id_of(o@) == expected@),
        r matches Err(e) ==> (e == Error::Corrupt && (parse_object_spec(bytes@) is None
            || (parse_object_spec(bytes@) matches Some(ov) && id_of(ov) != expected@))),
{
    match parse_object(bytes) {
        Err(e) => Err(e),
        Ok(o) => {
            let oid = object_id(&o);
            if oid.same(expected) {
                Ok(o)
            } else {
                Err(Error::Corrupt)
            }
        }
    }
}

// ---------------------------------------------------------------------------
// Structural equality and deep copies.
// ---------------------------------------------------------------------------

/// Structural equality of tree entries.
pub fn entry_eq(a: &TreeEntry, b: &TreeEntry) -> (r: bool)
    ensures
        r == (a@ == b@),
{
    let r = bytes_eq(&a.name, &b.name) && a.mode == b.mode && a.id.same(&b.id) && a.kind == b.kind;
    proof {
        if a@.name == b@.name && a@.mode == b@.mode && a@.id == b@.id && a@.kind == b@.kind {
            assert(a@ =~= b@);
        }
    }
    r
}

/// Structural equality of signatures.
pub fn sig_eq(a: &Signature, b: &Signature) -> (r: bool)
    ensures
        r == (a@ == b@),
{
    let r = bytes_eq(&a.name, &b.name) && a.timestamp == b.timestamp;
    proof {
        if a@.name == b@.name && a@.timestamp == b@.timestamp {
            assert(a@ =~= b@);
        }
    }
    r
}

/// Structural equality of commits.
pub fn commit_eq(a: &CommitData, b: &CommitData) -> (r: bool)
    ensures
        r == (a@ == b@),
{
    if !(a.tree.same(&b.tree) && sig_eq(&a.author, &b.author) && sig_eq(&a.committer, &b.committer)
        && bytes_eq(&a.message, &b.message)) {
        return false;
    }
    if a.parents.len() != b.parents.len() {
        proof {
            assert(a@.parents.len() != b@.parents.len());
        }
        return false;
    }
    let mut i: usize = 0;
    while i < a.parents.len()
        invariant
            a.parents.len() == b.parents.len(),
            i <= a.parents.len(),
            a@.tree == b@.tree,
            a@.author == b@.author,
            a@.committer == b@.committer,
            a@.message == b@.message,
            forall|j: int| 0 <= j < i ==> a@.parents[j] == b@.parents[j],
        decreases a.parents.len() - i,
    {
        if !a.parents[i].same(&b.parents[i]) {
            proof {
                assert(a@.parents[i as int] != b@.parents[i as int]);
            }
            return false;
        }
        i = i + 1;
    }
    proof {
        assert(a@.parents =~= b@.parents);
        assert(a@ =~= b@);
    }
    true
}

/// Structural equality of objects.
pub fn object_eq(a: &Object, b: &Object) -> (r: bool)
    ensures
        r == (a@ == b@),
{
    match (a, b) {
        (Object::Blob(x), Object::Blob(y)) => bytes_eq(x, y),
        (Object::Tree(xs), Object::Tree(ys)) => {
            let ghost xv = xs@.map_values(|e: TreeEntry| e@);
            let ghost yv = ys@.map_values(|e: TreeEntry| e@);
            if xs.len() != ys.len() {
                proof {
                    assert(xv.len() != yv.len());
                }
                return false;
            }
            let mut i: usize = 0;
            while i < xs.len()
                invariant
                    xs.len() == ys.len(),
                    i <= xs.len(),
                    xv == xs@.map_values(|e: TreeEntry| e@),
                    yv == ys@.map_values(|e: TreeEntry| e@),
                    xv.len() == xs@.len(),
                    yv.len() == ys@.len(),
                    a@ == ObjectV::Tree(xv),
                    b@ == ObjectV::Tree(yv),
                    forall|j: int| 0 <= j < i ==> xv[j] == yv[j],
                decreases xs.len() - i,
            {
                if !entry_eq(&xs[i], &ys[i]) {
                    proof {
                        assert(xv[i as int] != yv[i as int]);
                        if xv == yv {
                            assert(xv[i as int] == yv[i as int]);
                        }
                        assert(a@ == ObjectV::Tree(xv));
                        assert(b@ == ObjectV::Tree(yv));
                    }
                    return false;
                }
                i = i + 1;
            }
            proof {
                assert(xv =~= yv);
            }
            true
        }
        (Object::Commit(x), Object::Commit(y)) => commit_eq(x, y),
        _ => {
            proof {
                assert(a@ != b@);
            }
            false
        }
    }
}

/// A deep copy of a tree entry.
pub fn copy_entry(e: &TreeEntry) -> (r: TreeEntry)
    ensures
        r@ == e@,
{
    TreeEntry { name: copy_bytes(&e.name), mode: e.mode, id: e.id.dup(), kind: e.kind }
}

/// A deep copy of a signature.
pub fn copy_sig(s: &Signature) -> (r: Signature)
    ensures
        r@ == s@,
{
    Signature { name: copy_bytes(&s.name), timestamp: s.timestamp }
}

/// A deep copy of a commit.
pub fn copy_commit(c: &CommitData) -> (r: CommitData)
    ensures
        r@ == c@,
{
    let mut parents: Vec<ObjectId> = Vec::new();
    let ghost pv = c.parents@.map_values(|p: ObjectId| p@);
    let mut i: usize = 0;
    while i < c.parents.len()
        invariant
            i <= c.parents.len(),
            pv == c.parents@.map_values(|p: ObjectId| p@),
            pv.len() == c.parents@.len(),
            parents@.len() == i,
            forall|j: int| 0 <= j < i ==> parents@[j]@ == pv[j],
        decreases c.parents.len() - i,
    {
        parents.push(c.parents[i].dup());
        i = i + 1;
    }
    let r = CommitData {
        tree: c.tree.dup(),
        parents,
        author: copy_sig(&c.author),
        committer: copy_sig(&c.committer),
        message: copy_bytes(&c.message),
    };
    proof {
        assert(r@.parents =~= pv);
        assert(r@ =~= c@);
    }
    r
}

/// A deep copy of an object.
pub fn copy_object(o: &Object) -> (r: Object)
    ensures
        r@ == o@,
{
    match o {
        Object::Blob(b) => Object::Blob(copy_bytes(b)),
        Object::Tree(es) => {
            let ghost ev = es@.map_values(|e: TreeEntry| e@);
            let mut out: Vec<TreeEntry> = Vec::new();
            let mut i: usize = 0;
            while i < es.len()
                invariant
                    i <= es.len(),
                    ev == es@.map_values(|e: TreeEntry| e@),
                    ev.len() == es@.len(),
                    out@.len() == i,
                    forall|j: int| 0 <= j < i ==> out@[j]@ == ev[j],
                decreases es.len() - i,
            {
                out.push(copy_entry(&es[i]));
                i = i + 1;
            }
            let r = Object::Tree(out);
            proof {
                assert(out@.map_values(|e: TreeEntry| e@) =~= ev);
            }
            r
        }
        Object::Commit(c) => Object::Commit(copy_commit(c)),
    }
}

} // verus!
