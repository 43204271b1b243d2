//! The object store: content-addressed storage for immutable objects. Its
//! contents are a map from object id to object value; writing is idempotent
//! and objects are never updated or deleted.

use vstd::prelude::*;
use crate::error::Error;
use crate::object::Object;
use crate::object::ObjectV;
use crate::object::id_of;
use crate::object::object_id;
use crate::object::object_eq;
use crate::object::copy_object;
use crate::oid::ObjectId;

verus! {

struct StoreSlot {
    id: ObjectId,
    obj: Object,
}

spec fn slot_views(s: Seq<StoreSlot>) -> Seq<(Seq<u8>, ObjectV)> {
    s.map_values(|x: StoreSlot| (x.id@, x.obj@))
}

spec fn map_of(l: Seq<(Seq<u8>, ObjectV)>) -> Map<Seq<u8>, ObjectV>
    decreases l.len(),
{
    if l.len() == 0 {
        Map::empty()
    } else {
        map_of(l.drop_last()).insert(l.last().0, l.last().1)
    }
}

spec fn keys_unique(l: Seq<(Seq<u8>, ObjectV)>) -> bool {
    forall|i: int, j: int| 0 <= i < j < l.len() ==> l[i].0 != l[j].0
}

proof fn lemma_map_of_index(l: Seq<(Seq<u8>, ObjectV)>, i: int)
    requires
        keys_unique(l),
        0 <= i < l.len(),
    ensures
        map_of(l).contains_key(l[i].0),
        map_of(l)[l[i].0] == l[i].1,
    decreases l.len(),
{
    if i == l.len() - 1 {
    } else {
        assert(keys_unique(l.drop_last()));
        lemma_map_of_index(l.drop_last(), i);
        assert(l.drop_last()[i] == l[i]);
        assert(l[i].0 != l.last().0);
    }
}

proof fn lemma_map_of_missing(l: Seq<(Seq<u8>, ObjectV)>, k: Seq<u8>)
    requires
        forall|i: int| 0 <= i < l.len() ==> l[i].0 != k,
    ensures
        !map_of(l).contains_key(k),
    decreases l.len(),
{
    if l.len() > 0 {
        lemma_map_of_missing(l.drop_last(), k);
    }
}

/// Whether storing `o` into contents `m` would find a different object
/// already recorded under `o`'s id; only a digest collision or outside
/// tampering can bring this about.
pub open spec fn collides(m: Map<Seq<u8>, ObjectV>, o: ObjectV) -> bool {
    m.contains_key(id_of(o)) && m[id_of(o)] != o
}

/// The contents after a successful store of `o`.
pub open spec fn put_map(m: Map<Seq<u8>, ObjectV>, o: ObjectV) -> Map<Seq<u8>, ObjectV> {
    m.insert(id_of(o), o)
}

/// What a fetch returns: the object at `id`, or `NotFound`.
pub open spec fn get_spec(m: Map<Seq<u8>, ObjectV>, id: Seq<u8>) -> Result<ObjectV, Error> {
    if m.contains_key(id) {
        Ok(m[id])
    } else {
        Err(Error::NotFound)
    }
}

/// Content-addressed storage for immutable objects.
pub struct ObjectStore {
    slots: Vec<StoreSlot>,
}

impl View for ObjectStore {
    type V = Map<Seq<u8>, ObjectV>;

    closed spec fn view(&self) -> Map<Seq<u8>, ObjectV> {
        map_of(slot_views(self.slots@))
    }
}

impl ObjectStore {
    #[verifier::type_invariant]
    spec fn inv(self) -> bool {
        let l = slot_views(self.slots@);
        &&& keys_unique(l)
        &&& forall|i: int| 0 <= i < l.len() ==> l[i].0 == id_of(l[i].1)
    }

    /// An empty store.
    pub fn new() -> (r: ObjectStore)
        ensures
            r@ == Map::<Seq<u8>, ObjectV>::empty(),
    {
        ObjectStore { slots: Vec::new() }
    }

    /// How many distinct objects are stored.
    pub fn count(&self) -> (r: usize)
        ensures
            r == self@.dom().len(),
    {
        proof {
            use_type_invariant(&*self);
            lemma_map_len(slot_views(self.slots@));
        }
        self.slots.len()
    }

    /// The ids of every stored object, one per object.
    pub fn ids(&self) -> (r: Vec<ObjectId>)
        ensures
            r@.len() == self@.dom().len(),
            forall|i: int| 0 <= i < r@.len() ==> self@.contains_key(r@[i]@),
    {
        proof {
            use_type_invariant(&*self);
            lemma_map_len(slot_views(self.slots@));
        }
        let mut r: Vec<ObjectId> = Vec::new();
        let mut i: usize = 0;
        while i < self.slots.len()
            invariant
                i <= self.slots@.len(),
                r@.len() == i,
                keys_unique(slot_views(self.slots@)),
                forall|j: int|
                    0 <= j < i ==> map_of(slot_views(self.slots@)).contains_key(r@[j]@),
            decreases self.slots@.len() - i,
        {
            proof {
                lemma_map_of_index(slot_views(self.slots@), i as int);
            }
            r.push(self.slots[i].id.dup());
            i = i + 1;
        }
        r
    }

    fn find(&self, id: &ObjectId) -> (r: Option<usize>)
        ensures
            match r {
                Some(i) => i < self.slots@.len() && slot_views(self.slots@)[i as int].0 == id@,
                None => forall|i: int|
                    0 <= i < self.slots@.len() ==> slot_views(self.slots@)[i].0 != id@,
            },
    {
        let mut i: usize = 0;
        while i < self.slots.len()
            invariant
                i <= self.slots@.len(),
                forall|j: int| 0 <= j < i ==> slot_views(self.slots@)[j].0 != id@,
            decreases self.slots@.len() - i,
        {
            if self.slots[i].id.same(id) {
                return Some(i);
            }
            i = i + 1;
        }
        None
    }

    /// Whether an object with this id is stored, without fetching it.
    pub fn contains(&self, id: &ObjectId) -> (r: bool)
        ensures
            r == self@.contains_key(id@),
    {
        proof {
            use_type_invariant(&*self);
        }
        match self.find(id) {
            Some(i) => {
                proof {
                    lemma_map_of_index(slot_views(self.slots@), i as int);
                }
                true
            }
            None => {
                proof {
                    lemma_map_of_missing(slot_views(self.slots@), id@);
                }
                false
            }
        }
    }

    /// Fetches the object stored under `id`, re-checking that its bytes still
    /// hash to `id`; fails with `NotFound` when no such object is stored.
    pub fn get(&self, id: &ObjectId) -> (r: Result<Object, Error>)
        ensures
            r matches Ok(o) ==> Ok::<ObjectV, Error>(o@) == get_spec(self@, id@),
            r matches Err(e) ==> Err::<ObjectV, Error>(e) == get_spec(self@, id@),
    {
        proof {
            use_type_invariant(&*self);
        }
        match self.find(id) {
            Some(i) => {
                proof {
                    lemma_map_of_index(slot_views(self.slots@), i as int);
                }
                let check = object_id(&self.slots[i].obj);
                if check.same(&self.slots[i].id) {
                    Ok(copy_object(&self.slots[i].obj))
                } else {
                    // The type invariant rules this out: every stored id is
                    // the digest of its object's serialization.
                    proof {
                        assert(false);
                    }
                    Err(Error::Corrupt)
                }
            }
            None => {
                proof {
                    lemma_map_of_missing(slot_views(self.slots@), id@);
                }
                Err(Error::NotFound)
            }
        }
    }

    /// Stores an object under the digest of its serialization and returns
    /// that id. Storing the same content twice is a no-op beyond the first;
    /// a different object already recorded under the same id is reported as
    /// `Corrupt` and leaves the store unchanged.
    pub fn put(&mut self, obj: Object) -> (r: Result<ObjectId, Error>)
        ensures
            !collides(old(self)@, obj@) ==> (r matches Ok(id) && id@ == id_of(obj@)
                && final(self)@ == put_map(old(self)@, obj@)),
            collides(old(self)@, obj@) ==> (r matches Err(e) && e == Error::Corrupt
                && *final(self) == *old(self)),
            old(self)@.contains_key(id_of(obj@)) ==> *final(self) == *old(self),
    {
        proof {
            use_type_invariant(&*self);
        }
        let oid = object_id(&obj);
        match self.find(&oid) {
            Some(i) => {
                proof {
                    lemma_map_of_index(slot_views(self.slots@), i as int);
                }
                if object_eq(&self.slots[i].obj, &obj) {
                    proof {
                        assert(put_map(self@, obj@) =~= self@);
                    }
                    Ok(oid)
                } else {
                    Err(Error::Corrupt)
                }
            }
            None => {
                proof {
                    lemma_map_of_missing(slot_views(self.slots@), oid@);
                }
                let ghost l0 = slot_views(self.slots@);
                let oid2 = oid.dup();
                let mut slots: Vec<StoreSlot> = Vec::new();
                std::mem::swap(&mut slots, &mut self.slots);
                slots.push(StoreSlot { id: oid, obj });
                proof {
                    assert(slot_views(slots@) =~= l0.push(slot_views(slots@).last()));
                    assert(slot_views(slots@).drop_last() =~= l0);
                }
                std::mem::swap(&mut slots, &mut self.slots);
                proof {
                    assert(self@ =~= put_map(old(self)@, obj@));
                }
                Ok(oid2)
            }
        }
    }
}

proof fn lemma_map_len(l: Seq<(Seq<u8>, ObjectV)>)
    requires
        keys_unique(l),
    ensures
        map_of(l).dom().finite(),
        map_of(l).dom().len() == l.len(),
    decreases l.len(),
{
    if l.len() > 0 {
        assert(keys_unique(l.drop_last()));
        lemma_map_len(l.drop_last());
        lemma_map_of_missing(l.drop_last(), l.last().0);
    }
}

/// Law: fetching what was just stored gives the stored content back, and
/// storing identical content twice yields the same id and the same contents
/// with nothing duplicated.
pub proof fn lemma_store_round_trip(m: Map<Seq<u8>, ObjectV>, b: Seq<u8>)
    ensures
        get_spec(put_map(m, ObjectV::Blob(b)), id_of(ObjectV::Blob(b))) == Ok::<ObjectV, Error>(
            ObjectV::Blob(b),
        ),
        put_map(put_map(m, ObjectV::Blob(b)), ObjectV::Blob(b)) == put_map(m, ObjectV::Blob(b)),
{
    assert(put_map(put_map(m, ObjectV::Blob(b)), ObjectV::Blob(b)) =~= put_map(
        m,
        ObjectV::Blob(b),
    ));
}

} // verus!
