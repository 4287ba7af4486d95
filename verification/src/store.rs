//! The object store, modeled as the ordered list of objects written so
//! far: each entry pairs an object's hash with its compressed frame. A
//! write whose hash is already present changes nothing, so writing the
//! same content twice is a no-op the second time. Persisting the entries
//! to disk, in order, is left to the caller outside the library.

use vstd::prelude::*;
use crate::compress::{compress_content, zlib_deflate};
use crate::error::NitError;
use crate::object::{frame, header_bytes, object_hash, ObjectKind};

verus! {

/// Whether the store already holds an object with the given hash.
pub open spec fn contains_hash(sv: Seq<(Seq<u8>, Seq<u8>)>, h: Seq<u8>) -> bool {
    exists|i: int| 0 <= i < sv.len() && (#[trigger] sv[i]).0 == h
}

/// What one write leaves in the store: unchanged when the object's hash
/// is already present, else the store with the object's hash and
/// compressed frame appended.
pub open spec fn spec_store_write(
    sv: Seq<(Seq<u8>, Seq<u8>)>,
    kind: ObjectKind,
    payload: Seq<u8>,
) -> Seq<(Seq<u8>, Seq<u8>)> {
    if contains_hash(sv, object_hash(kind, payload)) {
        sv
    } else {
        sv.push((object_hash(kind, payload), zlib_deflate(frame(kind, payload))))
    }
}

/// Writing the same object twice leaves exactly what the first write
/// left: the second write is a no-op.
pub proof fn lemma_write_idempotent(
    sv: Seq<(Seq<u8>, Seq<u8>)>,
    kind: ObjectKind,
    payload: Seq<u8>,
)
    ensures
        spec_store_write(spec_store_write(sv, kind, payload), kind, payload) == spec_store_write(
            sv,
            kind,
            payload,
        ),
{
    let h = object_hash(kind, payload);
    if !contains_hash(sv, h) {
        let sv1 = sv.push((h, zlib_deflate(frame(kind, payload))));
        assert(sv1[sv.len() as int].0 == h);
    }
}

/// The content-addressable object store.
pub struct ObjectStore {
    /// The objects written so far, oldest first: hash and compressed frame.
    pub objects: Vec<(crate::hash::Hash, Vec<u8>)>,
}

impl View for ObjectStore {
    type V = Seq<(Seq<u8>, Seq<u8>)>;

    open spec fn view(&self) -> Seq<(Seq<u8>, Seq<u8>)> {
        Seq::new(
            self.objects@.len(),
            |i: int| (self.objects@[i].0.0@, self.objects@[i].1@),
        )
    }
}

impl ObjectStore {
    /// An empty store.
    pub fn new() -> (r: ObjectStore)
        ensures
            r@ == Seq::<(Seq<u8>, Seq<u8>)>::empty(),
    {
        let r = ObjectStore { objects: Vec::new() };
        assert(r@ =~= Seq::<(Seq<u8>, Seq<u8>)>::empty());
        r
    }

    /// Whether an object with this hash has been written.
    pub fn contains(&self, h: &crate::hash::Hash) -> (r: bool)
        ensures
            r == contains_hash(self@, h.0@),
    {
        let n = self.objects.len();
        let mut i: usize = 0;
        while i < n
            invariant
                n == self.objects@.len(),
                i <= n,
                forall|j: int| 0 <= j < i ==> (#[trigger] self@[j]).0 != h.0@,
            decreases n - i,
        {
            if self.objects[i].0.same_as(h) {
                assert(self@[i as int].0 == h.0@);
                return true;
            }
            i = i + 1;
        }
        false
    }

    /// Writes an object: computes the hash of its frame and, unless an
    /// object with that hash is already present, appends the compressed
    /// frame under that hash. Always succeeds, returning the hash.
    pub fn write(&mut self, kind: ObjectKind, payload: &[u8]) -> (r: Result<
        crate::hash::Hash,
        NitError,
    >)
        ensures
            r is Ok,
            r matches Ok(h) ==> h.0@ == object_hash(kind, payload@) && final(self)@
                == spec_store_write(old(self)@, kind, payload@),
    {
        let header = header_bytes(kind, payload.len());
        let h = crate::hash::Hash::from_bytes(header.as_slice(), payload);
        assert(h.0@ == object_hash(kind, payload@)) by {
            assert(header@ + payload@ =~= frame(kind, payload@));
        }
        if self.contains(&h) {
            return Ok(h);
        }
        let compressed = compress_content(header.as_slice(), payload).unwrap();
        assert(compressed@ == zlib_deflate(frame(kind, payload@))) by {
            assert(header@ + payload@ =~= frame(kind, payload@));
        }
        self.objects.push((h, compressed));
        assert(self@ =~= spec_store_write(old(self)@, kind, payload@));
        Ok(h)
    }

    /// How many objects have been written.
    pub fn len(&self) -> (r: usize)
        ensures
            r == self@.len(),
    {
        self.objects.len()
    }
}

/// Writes a tree object with the given payload.
pub fn write_tree(tree: Vec<u8>, store: &mut ObjectStore) -> (r: Result<
    crate::hash::Hash,
    NitError,
>)
    ensures
        r is Ok,
        r matches Ok(h) ==> h.0@ == object_hash(ObjectKind::Tree, tree@) && final(store)@
            == spec_store_write(old(store)@, ObjectKind::Tree, tree@),
{
    store.write(ObjectKind::Tree, tree.as_slice())
}

} // verus!
