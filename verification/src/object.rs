//! The object store: immutable blobs, trees and commits, each kept in
//! compressed form under the digest of its content.
use crate::codec::{compress, decompress, deflated, inflated};
use crate::digest::{digest_content, digest_of, is_sha1_hex, Digest, MAX_HASH_INPUT};
use crate::error::Error;
use crate::table::Table;
use vstd::prelude::*;

verus! {

/// What a stored object is.
#[derive(Clone, Copy, Debug, PartialEq, Eq, Structural)]
pub enum ObjectKind {
    Blob,
    Tree,
    Commit,
}

/// An object as it is kept: its kind and its payload in compressed form.
#[derive(Debug, PartialEq, Eq)]
pub struct StoredObject {
    pub kind: ObjectKind,
    pub payload: Vec<u8>,
}

/// A stored object as the contracts see it.
pub ghost struct ObjectView {
    pub kind: ObjectKind,
    pub payload: Seq<u8>,
}

impl View for StoredObject {
    type V = ObjectView;

    open spec fn view(&self) -> ObjectView {
        ObjectView { kind: self.kind, payload: self.payload@ }
    }
}

/// The place of one object in the store, named by its digest text. On disk the
/// first two characters name a directory and the rest a file in it.
pub struct Object {
    sha: String,
}

/// The objects of a repository, by digest.
pub struct ObjectStore {
    objects: Table<StoredObject>,
}

/// A payload that can be stored: short enough to hash, and accepted by the encoder.
pub open spec fn storable(payload: Seq<u8>) -> bool {
    payload.len() <= MAX_HASH_INPUT && deflated(payload) is Some
}

/// The stored form of a payload of the given kind.
pub open spec fn stored_form(kind: ObjectKind, payload: Seq<u8>) -> ObjectView {
    ObjectView { kind, payload: deflated(payload)->0 }
}

/// What reading `digest` from `objects` yields.
pub open spec fn read_object(objects: Map<Seq<char>, ObjectView>, digest: Seq<char>) -> Result<
    Seq<u8>,
    Error,
> {
    if !objects.contains_key(digest) {
        Err(Error::ObjectNotFound)
    } else {
        match inflated(objects[digest].payload) {
            Some(payload) => Ok(payload),
            None => Err(Error::IOFailure),
        }
    }
}

impl Object {
    /// The digest text that names the object.
    pub closed spec fn digest(&self) -> Seq<char> {
        self.sha@
    }

    /// The object named by the given digest text.
    pub fn new(sha: String) -> (o: Object)
        ensures
            o.digest() == sha@,
    {
        Self { sha }
    }

    /// The digest text that names the object.
    pub fn sha(&self) -> (s: &str)
        ensures
            s@ == self.digest(),
    {
        self.sha.as_str()
    }

    /// The name of the directory that holds the object: the first two
    /// characters of its digest. A digest of fewer characters has none.
    pub fn directory(&self) -> (r: Option<String>)
        ensures
            match r {
                Some(s) => self.digest().len() >= 2 && s@ == self.digest().subrange(0, 2),
                None => self.digest().len() < 2,
            },
    {
        let text = self.sha.as_str();
        if text.unicode_len() < 2 {
            return None;
        }
        Some(String::from_str(text.substring_char(0, 2)))
    }

    /// The name of the object's file in its directory: what follows the first
    /// two characters of its digest. A digest of fewer characters has none.
    pub fn file_name(&self) -> (r: Option<String>)
        ensures
            match r {
                Some(s) => self.digest().len() >= 2 && s@ == self.digest().subrange(
                    2,
                    self.digest().len() as int,
                ),
                None => self.digest().len() < 2,
            },
    {
        let text = self.sha.as_str();
        let n = text.unicode_len();
        if n < 2 {
            return None;
        }
        Some(String::from_str(text.substring_char(2, n)))
    }

    /// Keeps `payload`, already in its stored form, as this object. Whatever
    /// the store held under the same digest is replaced.
    pub fn write(&self, store: &mut ObjectStore, kind: ObjectKind, payload: Vec<u8>)
        ensures
            final(store)@ == old(store)@.insert(
                self.digest(),
                ObjectView { kind, payload: payload@ },
            ),
    {
        let ghost before = store.objects@;
        let object = StoredObject { kind, payload };
        store.objects.insert(self.sha.clone(), object);
        proof {
            assert(store.objects@ == before.insert(self.sha@, object));
            assert(store@ =~= old(store)@.insert(self.digest(), object@));
        }
    }
}

impl ObjectStore {
    /// The stored objects, by digest text.
    pub closed spec fn view(&self) -> Map<Seq<char>, ObjectView> {
        self.objects@.map_values(|o: StoredObject| o@)
    }

    /// What `get` returns for a digest.
    pub open spec fn lookup(&self, digest: Seq<char>) -> Result<Seq<u8>, Error> {
        read_object(self@, digest)
    }

    /// A store that holds no object: nothing is stored under any digest, and
    /// there is no position to go through.
    pub fn new() -> (s: Self)
        ensures
            s@ == Map::<Seq<char>, ObjectView>::empty(),
            s.count() == 0,
    {
        let s = ObjectStore { objects: Table::new() };
        assert(s@ =~= Map::<Seq<char>, ObjectView>::empty());
        s
    }

    /// The number of objects held.
    pub fn len(&self) -> (n: usize)
        ensures
            n == self.count(),
    {
        self.objects.len()
    }

    /// The number of objects held.
    pub closed spec fn count(&self) -> nat {
        self.objects.slots().len()
    }

    /// The digest text of the object at a position.
    pub closed spec fn digest_at(&self, i: int) -> Seq<char> {
        self.objects.slots()[i].key@
    }

    /// The object at a position, with its digest text; `None` from `len` on.
    pub fn entry(&self, i: usize) -> (r: Option<(&str, &StoredObject)>)
        ensures
            match r {
                Some(e) => {
                    &&& i < self.count()
                    &&& e.0@ == self.digest_at(i as int)
                    &&& self@.contains_key(e.0@)
                    &&& self@[e.0@] == e.1@
                },
                None => i >= self.count(),
            },
    {
        match self.objects.slot(i) {
            Some(slot) => Some((slot.key.as_str(), &slot.value)),
            None => None,
        }
    }

    /// Every object of the store is at a position below `len`, so that going
    /// through the positions reaches each of them.
    pub proof fn lemma_every_object_has_a_position(&self, digest: Seq<char>)
        requires
            self@.contains_key(digest),
        ensures
            exists|i: int| 0 <= i < self.count() && self.digest_at(i) == digest,
    {
        let slots = self.objects.slots();
        assert(self.objects@.contains_key(digest));
        let i = choose|i: int| 0 <= i < slots.len() && #[trigger] slots[i].key@ == digest;
        assert(0 <= i < self.count() && self.digest_at(i) == digest);
    }

    /// Whether an object is stored under the digest.
    pub fn contains(&self, digest: &Digest) -> (r: bool)
        ensures
            r == self@.contains_key(digest@),
    {
        self.objects.get(digest.as_str()).is_some()
    }

    /// The stored object under a digest, in its stored form.
    pub fn stored(&self, digest: &Digest) -> (r: Option<&StoredObject>)
        ensures
            match r {
                Some(o) => self@.contains_key(digest@) && self@[digest@] == o@,
                None => !self@.contains_key(digest@),
            },
    {
        self.objects.get(digest.as_str())
    }

    /// Stores a payload, compressed, under the digest of its content and
    /// returns the digest; `get` on that digest then returns the payload.
    /// Storing the same content again yields the same digest and the same
    /// stored object.
    pub fn put(&mut self, kind: ObjectKind, payload: &[u8]) -> (r: Result<Digest, Error>)
        ensures
            match r {
                Ok(d) => {
                    &&& storable(payload@)
                    &&& d@ == digest_of(payload@)
                    &&& is_sha1_hex(d@)
                    &&& final(self)@ == old(self)@.insert(d@, stored_form(kind, payload@))
                    &&& final(self).lookup(d@) == Ok::<Seq<u8>, Error>(payload@)
                },
                Err(e) => {
                    &&& !storable(payload@)
                    &&& e == Error::IOFailure
                    &&& final(self)@ == old(self)@
                },
            },
    {
        match digest_content(payload) {
            Some(digest) => match compress(payload) {
                Ok(packed) => {
                    Object::new(digest.hex.clone()).write(self, kind, packed);
                    Ok(digest)
                },
                Err(e) => Err(e),
            },
            None => Err(Error::IOFailure),
        }
    }

    /// Reads back the payload stored under a digest.
    pub fn get(&self, digest: &Digest) -> (r: Result<Vec<u8>, Error>)
        ensures
            match r {
                Ok(payload) => self.lookup(digest@) == Ok::<Seq<u8>, Error>(payload@),
                Err(e) => self.lookup(digest@) == Err::<Seq<u8>, Error>(e),
            },
    {
        match self.objects.get(digest.as_str()) {
            Some(object) => decompress(object.payload.as_slice()),
            None => Err(Error::ObjectNotFound),
        }
    }
}

/// The digest under which a content is stored is a function of the content
/// alone: equal contents are stored under equal digests, whatever their kind
/// and whatever else the store holds.
pub proof fn lemma_equal_content_equal_digest(c1: Seq<u8>, c2: Seq<u8>)
    requires
        c1 == c2,
    ensures
        digest_of(c1) == digest_of(c2),
{
}

/// Storing a content that is stored already changes nothing: the store holds
/// the same object under the same digest.
pub proof fn lemma_store_again(
    objects: Map<Seq<char>, ObjectView>,
    kind: ObjectKind,
    payload: Seq<u8>,
)
    ensures
        objects.insert(digest_of(payload), stored_form(kind, payload)).insert(
            digest_of(payload),
            stored_form(kind, payload),
        ) == objects.insert(digest_of(payload), stored_form(kind, payload)),
{
    let once = objects.insert(digest_of(payload), stored_form(kind, payload));
    assert(once.insert(digest_of(payload), stored_form(kind, payload)) =~= once);
}

} // verus!
