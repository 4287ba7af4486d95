//! Object kinds and the textual frame that is hashed and stored for every
//! object: `"<kind-name> <payload-length>\0"` followed by the payload.

use vstd::prelude::*;
use crate::hash::sha1_of;
use crate::util::{dec_bytes, push_dec};

verus! {

/// The closed set of object kinds. Each has a canonical lowercase name
/// used in frame headers, and blobs and trees also have a canonical
/// filesystem mode number.
#[derive(Debug, Clone, Copy, PartialEq, Eq, Structural)]
pub enum ObjectKind {
    Blob,
    Tree,
    Commit,
}

/// The canonical lowercase name of an object kind, as ASCII bytes.
pub open spec fn kind_name(kind: ObjectKind) -> Seq<u8> {
    match kind {
        ObjectKind::Blob => seq![98u8, 108u8, 111u8, 98u8],
        ObjectKind::Tree => seq![116u8, 114u8, 101u8, 101u8],
        ObjectKind::Commit => seq![99u8, 111u8, 109u8, 109u8, 105u8, 116u8],
    }
}

/// The canonical mode number of an object kind.
pub open spec fn spec_mode_bits(kind: ObjectKind) -> u32 {
    match kind {
        ObjectKind::Blob => 100644,
        ObjectKind::Tree => 40000,
        ObjectKind::Commit => 0,
    }
}

/// The six-character decimal mode text of an object kind, zero-padded, as
/// written into tree payloads.
pub open spec fn mode_text(kind: ObjectKind) -> Seq<u8> {
    match kind {
        ObjectKind::Blob => seq![49u8, 48u8, 48u8, 54u8, 52u8, 52u8],
        ObjectKind::Tree => seq![48u8, 52u8, 48u8, 48u8, 48u8, 48u8],
        ObjectKind::Commit => seq![48u8, 48u8, 48u8, 48u8, 48u8, 48u8],
    }
}

/// The frame header of an object: the kind name, a space, the decimal
/// payload length, and a NUL terminator.
pub open spec fn frame_header(kind: ObjectKind, len: nat) -> Seq<u8> {
    kind_name(kind) + seq![32u8] + dec_bytes(len) + seq![0u8]
}

/// The full frame of an object: its header followed by its payload. The
/// frame is what is hashed, and what is compressed for storage.
pub open spec fn frame(kind: ObjectKind, payload: Seq<u8>) -> Seq<u8> {
    frame_header(kind, payload.len()) + payload
}

/// The identifying hash of an object: the digest of its frame.
pub open spec fn object_hash(kind: ObjectKind, payload: Seq<u8>) -> Seq<u8> {
    sha1_of(frame(kind, payload))
}

impl ObjectKind {
    /// The canonical mode number of the kind.
    pub fn to_mode_bits(&self) -> (r: u32)
        ensures
            r == spec_mode_bits(*self),
    {
        match self {
            ObjectKind::Blob => 100644,
            ObjectKind::Tree => 40000,
            ObjectKind::Commit => 0,
        }
    }

    /// Appends the kind's lowercase name to `out`.
    pub fn push_name(&self, out: &mut Vec<u8>)
        ensures
            final(out)@ == old(out)@ + kind_name(*self),
    {
        match self {
            ObjectKind::Blob => {
                out.push(98);
                out.push(108);
                out.push(111);
                out.push(98);
            },
            ObjectKind::Tree => {
                out.push(116);
                out.push(114);
                out.push(101);
                out.push(101);
            },
            ObjectKind::Commit => {
                out.push(99);
                out.push(111);
                out.push(109);
                out.push(109);
                out.push(105);
                out.push(116);
            },
        }
        assert(out@ =~= old(out)@ + kind_name(*self));
    }

    /// Appends the kind's six-character mode text to `out`.
    pub fn push_mode_text(&self, out: &mut Vec<u8>)
        ensures
            final(out)@ == old(out)@ + mode_text(*self),
    {
        match self {
            ObjectKind::Blob => {
                out.push(49);
                out.push(48);
                out.push(48);
                out.push(54);
                out.push(52);
                out.push(52);
            },
            ObjectKind::Tree => {
                out.push(48);
                out.push(52);
                out.push(48);
                out.push(48);
                out.push(48);
                out.push(48);
            },
            ObjectKind::Commit => {
                out.push(48);
                out.push(48);
                out.push(48);
                out.push(48);
                out.push(48);
                out.push(48);
            },
        }
        assert(out@ =~= old(out)@ + mode_text(*self));
    }
}

/// Builds the frame header for an object of the given kind and payload
/// length.
pub fn header_bytes(kind: ObjectKind, len: usize) -> (r: Vec<u8>)
    ensures
        r@ == frame_header(kind, len as nat),
{
    let mut out: Vec<u8> = Vec::new();
    kind.push_name(&mut out);
    out.push(32);
    push_dec(&mut out, len);
    out.push(0);
    assert(out@ =~= frame_header(kind, len as nat));
    out
}

/// Hashes an object of the given kind: the digest of its frame.
pub fn hash_object(object_type: ObjectKind, content: Vec<u8>) -> (r: crate::hash::Hash)
    ensures
        r.0@ == object_hash(object_type, content@),
{
    match object_type {
        ObjectKind::Blob => hash_blob(content),
        ObjectKind::Tree => hash_tree(content),
        ObjectKind::Commit => hash_commit(content),
    }
}

/// Hashes the content as a blob object.
pub fn hash_blob(content: Vec<u8>) -> (r: crate::hash::Hash)
    ensures
        r.0@ == object_hash(ObjectKind::Blob, content@),
{
    let header = header_bytes(ObjectKind::Blob, content.len());
    crate::hash::Hash::from_bytes(header.as_slice(), content.as_slice())
}

/// Hashes the content as a tree object.
pub fn hash_tree(content: Vec<u8>) -> (r: crate::hash::Hash)
    ensures
        r.0@ == object_hash(ObjectKind::Tree, content@),
{
    let header = header_bytes(ObjectKind::Tree, content.len());
    crate::hash::Hash::from_bytes(header.as_slice(), content.as_slice())
}

/// Hashes the content as a commit object.
pub fn hash_commit(content: Vec<u8>) -> (r: crate::hash::Hash)
    ensures
        r.0@ == object_hash(ObjectKind::Commit, content@),
{
    let header = header_bytes(ObjectKind::Commit, content.len());
    crate::hash::Hash::from_bytes(header.as_slice(), content.as_slice())
}

} // verus!
