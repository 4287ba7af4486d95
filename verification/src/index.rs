//! The staging index and its binary codec: a twelve-byte header (magic,
//! version, entry count) followed by the entries, each a fixed metadata
//! block, a 20-byte hash, a flags word, the UTF-8 path name, and one to
//! eight NUL padding bytes that round the entry length up to a multiple
//! of eight.

use vstd::prelude::*;
use vstd::utf8::valid_utf8;
use vstd::string::StringSliceAdditionalSpecFns;
use crate::error::NitError;
use crate::util::{
    be16, be32, check_utf8, push_bytes, push_u16_be, push_u32_be, take_hash, take_n_bytes,
    take_u16, take_u32, u16_be, u32_be,
};
use crate::util::{lemma_be16_round_trip, lemma_be32_round_trip};

verus! {

/// The four signature bytes `DIRC`, read as one big-endian word.
pub const INDEX_SIGNATURE: u32 = 0x44495243;

/// The only supported index version.
pub const INDEX_VERSION: u32 = 2;

/// The index header: signature, version, and the number of entries that
/// follow.
#[derive(Debug, Clone, Copy, PartialEq, Eq, Structural)]
pub struct IndexHeader {
    pub signature: u32,
    pub version: u32,
    pub num_entries: u32,
}

/// One staged path: filesystem metadata, the content hash, the flags word
/// whose low twelve bits hold the name length, and the path name itself.
#[derive(Debug, Clone, PartialEq, Eq)]
pub struct IndexEntry {
    pub ctime_sec: u32,
    pub ctime_nano: u32,
    pub mtime_sec: u32,
    pub mtime_nano: u32,
    pub dev: u32,
    pub ino: u32,
    pub mode: u32,
    pub uid: u32,
    pub gid: u32,
    pub size: u32,
    pub key: crate::hash::Hash,
    pub flags: u16,
    pub name: Vec<u8>,
}

/// The flat staging index: its header and its entries.
#[derive(Debug, Clone, PartialEq, Eq)]
pub struct Index {
    pub header: IndexHeader,
    pub entries: Vec<IndexEntry>,
}

/// The mathematical value of one entry.
#[verifier::ext_equal]
pub struct EntryView {
    pub ctime_sec: u32,
    pub ctime_nano: u32,
    pub mtime_sec: u32,
    pub mtime_nano: u32,
    pub dev: u32,
    pub ino: u32,
    pub mode: u32,
    pub uid: u32,
    pub gid: u32,
    pub size: u32,
    pub key: Seq<u8>,
    pub flags: u16,
    pub name: Seq<u8>,
}

/// The mathematical value of the whole index.
#[verifier::ext_equal]
pub struct IndexView {
    pub signature: u32,
    pub version: u32,
    pub num_entries: u32,
    pub entries: Seq<EntryView>,
}

impl View for IndexEntry {
    type V = EntryView;

    open spec fn view(&self) -> EntryView {
        EntryView {
            ctime_sec: self.ctime_sec,
            ctime_nano: self.ctime_nano,
            mtime_sec: self.mtime_sec,
            mtime_nano: self.mtime_nano,
            dev: self.dev,
            ino: self.ino,
            mode: self.mode,
            uid: self.uid,
            gid: self.gid,
            size: self.size,
            key: self.key.0@,
            flags: self.flags,
            name: self.name@,
        }
    }
}

impl View for Index {
    type V = IndexView;

    open spec fn view(&self) -> IndexView {
        IndexView {
            signature: self.header.signature,
            version: self.header.version,
            num_entries: self.header.num_entries,
            entries: Seq::new(self.entries@.len(), |i: int| self.entries@[i]@),
        }
    }
}

/// How many NUL bytes pad an entry whose name is `name_len` bytes long:
/// enough to round the six trailing fixed bytes plus the name up to a
/// multiple of eight, and always at least one.
pub open spec fn pad_len(name_len: int) -> int {
    8 - ((6 + name_len) % 8)
}

/// The padding is one to eight bytes and completes the entry to a
/// multiple of eight.
pub proof fn lemma_padding_range(name_len: int)
    requires
        0 <= name_len,
    ensures
        1 <= pad_len(name_len) <= 8,
        (6 + name_len + pad_len(name_len)) % 8 == 0,
{
    let r = (6 + name_len) % 8;
    assert(0 <= r < 8);
    assert((6 + name_len + (8 - r)) % 8 == 0) by {
        vstd::arithmetic::div_mod::lemma_add_mod_noop(6 + name_len, 8 - r, 8);
        vstd::arithmetic::div_mod::lemma_mod_self_0(8);
        vstd::arithmetic::div_mod::lemma_mod_twice(6 + name_len, 8);
    }
}

/// A well-formed entry: a 20-byte key, the low twelve flag bits equal to
/// the name's byte length, and a name that is valid UTF-8.
pub open spec fn entry_wf(e: EntryView) -> bool {
    &&& e.key.len() == 20
    &&& (e.flags & 0xfff) == e.name.len()
    &&& valid_utf8(e.name)
}

/// A well-formed index: the `DIRC` signature, version two, a count that
/// matches the entries, and well-formed entries.
pub open spec fn index_wf(v: IndexView) -> bool {
    &&& v.signature == INDEX_SIGNATURE
    &&& v.version == INDEX_VERSION
    &&& v.num_entries == v.entries.len()
    &&& forall|i: int| 0 <= i < v.entries.len() ==> entry_wf(#[trigger] v.entries[i])
}

/// The encoding of one entry: ten big-endian metadata words, the key, the
/// flags word, the name, and the NUL padding. The padding length is
/// derived from the flags, as the decoder will derive it.
pub open spec fn encode_entry(e: EntryView) -> Seq<u8> {
    u32_be(e.ctime_sec) + u32_be(e.ctime_nano) + u32_be(e.mtime_sec) + u32_be(e.mtime_nano)
        + u32_be(e.dev) + u32_be(e.ino) + u32_be(e.mode) + u32_be(e.uid) + u32_be(e.gid) + u32_be(
        e.size,
    ) + e.key + u16_be(e.flags) + e.name + Seq::new(
        pad_len((e.flags & 0xfff) as int) as nat,
        |i: int| 0u8,
    )
}

/// The concatenated encodings of a run of entries.
pub open spec fn encode_entries(es: Seq<EntryView>) -> Seq<u8>
    decreases es.len(),
{
    if es.len() == 0 {
        Seq::empty()
    } else {
        encode_entry(es.first()) + encode_entries(es.drop_first())
    }
}

/// The encoding of the whole index: the three header words, then the
/// entries.
pub open spec fn encode_index(v: IndexView) -> Seq<u8> {
    u32_be(v.signature) + u32_be(v.version) + u32_be(v.num_entries) + encode_entries(v.entries)
}

/// Decodes one entry from the front of `bytes`, without its padding.
/// Returns the entry and the number of bytes its fields and name took. A
/// truncated entry is a format error; a name that is not valid UTF-8 is
/// an encoding error.
pub open spec fn decode_entry(bytes: Seq<u8>) -> Result<(EntryView, int), NitError> {
    if bytes.len() < 62 {
        Err(NitError::Format)
    } else {
        let flags = be16(bytes.subrange(60, 62));
        let nl = (flags & 0xfff) as int;
        if bytes.len() < 62 + nl {
            Err(NitError::Format)
        } else {
            let name = bytes.subrange(62, 62 + nl);
            if !valid_utf8(name) {
                Err(NitError::Encoding)
            } else {
                Ok(
                    (
                        EntryView {
                            ctime_sec: be32(bytes.subrange(0, 4)),
                            ctime_nano: be32(bytes.subrange(4, 8)),
                            mtime_sec: be32(bytes.subrange(8, 12)),
                            mtime_nano: be32(bytes.subrange(12, 16)),
                            dev: be32(bytes.subrange(16, 20)),
                            ino: be32(bytes.subrange(20, 24)),
                            mode: be32(bytes.subrange(24, 28)),
                            uid: be32(bytes.subrange(28, 32)),
                            gid: be32(bytes.subrange(32, 36)),
                            size: be32(bytes.subrange(36, 40)),
                            key: bytes.subrange(40, 60),
                            flags: flags,
                            name: name,
                        },
                        62 + nl,
                    ),
                )
            }
        }
    }
}

/// Decodes `n` entries from the front of `bytes`, each followed by its
/// padding. Running out of bytes, in an entry or in its padding, is a
/// format error.
pub open spec fn decode_entries(bytes: Seq<u8>, n: nat) -> Result<Seq<EntryView>, NitError>
    decreases n,
{
    if n == 0 {
        Ok(Seq::empty())
    } else {
        match decode_entry(bytes) {
            Err(e) => Err(e),
            Ok((entry, used)) => {
                let total = used + pad_len((entry.flags & 0xfff) as int);
                if bytes.len() < total {
                    Err(NitError::Format)
                } else {
                    match decode_entries(bytes.skip(total), (n - 1) as nat) {
                        Err(e) => Err(e),
                        Ok(rest) => Ok(seq![entry] + rest),
                    }
                }
            },
        }
    }
}

/// Decodes a whole index: the twelve-byte header, whose signature must be
/// `DIRC` and whose version must be two, then exactly as many entries as
/// the header counts. Bytes after the last entry are ignored.
pub open spec fn spec_decode(bytes: Seq<u8>) -> Result<IndexView, NitError> {
    if bytes.len() < 12 {
        Err(NitError::Format)
    } else {
        let signature = be32(bytes.subrange(0, 4));
        let version = be32(bytes.subrange(4, 8));
        let num_entries = be32(bytes.subrange(8, 12));
        if signature != INDEX_SIGNATURE {
            Err(NitError::Format)
        } else if version != INDEX_VERSION {
            Err(NitError::Format)
        } else {
            match decode_entries(bytes.skip(12), num_entries as nat) {
                Err(e) => Err(e),
                Ok(entries) => Ok(
                    IndexView { signature, version, num_entries, entries },
                ),
            }
        }
    }
}

/// The views of a run of entries.
pub open spec fn entry_views(es: Seq<IndexEntry>) -> Seq<EntryView> {
    Seq::new(es.len(), |i: int| es[i]@)
}

/// Prepends already-decoded entries to the outcome of decoding the rest.
pub open spec fn prepend_entries(pre: Seq<EntryView>, r: Result<Seq<EntryView>, NitError>) -> Result<
    Seq<EntryView>,
    NitError,
> {
    match r {
        Ok(rest) => Ok(pre + rest),
        Err(e) => Err(e),
    }
}

impl Index {
    /// Reads the three header words. A slice shorter than twelve bytes is
    /// a format error; the fields themselves are not validated here.
    pub fn read_header(bytes: &[u8]) -> (r: Result<IndexHeader, NitError>)
        ensures
            bytes@.len() >= 12 ==> (r matches Ok(h) && h.signature == be32(bytes@.subrange(0, 4))
                && h.version == be32(bytes@.subrange(4, 8)) && h.num_entries == be32(
                bytes@.subrange(8, 12),
            )),
            bytes@.len() < 12 ==> r == Err::<IndexHeader, NitError>(NitError::Format),
    {
        if bytes.len() < 12 {
            return Err(NitError::Format);
        }
        let (signature, p1) = take_u32(bytes, 0);
        let (version, p2) = take_u32(bytes, p1);
        let (num_entries, _p3) = take_u32(bytes, p2);
        Ok(IndexHeader { signature, version, num_entries })
    }

    /// Reads `num_entries` entries, each with its padding, from the front
    /// of `bytes`.
    pub fn read_entries(bytes: &[u8], num_entries: usize) -> (r: Result<Vec<IndexEntry>, NitError>)
        ensures
            r matches Ok(v) ==> decode_entries(bytes@, num_entries as nat) == Ok::<
                Seq<EntryView>,
                NitError,
            >(entry_views(v@)) && v@.len() == num_entries,
            r matches Err(e) ==> decode_entries(bytes@, num_entries as nat) == Err::<
                Seq<EntryView>,
                NitError,
            >(e),
    {
        let len = bytes.len();
        let mut entries: Vec<IndexEntry> = Vec::new();
        let mut pos: usize = 0;
        let mut i: usize = 0;
        proof {
            assert(bytes@.skip(0) =~= bytes@);
            match decode_entries(bytes@, num_entries as nat) {
                Ok(rest) => {
                    assert(entry_views(entries@) + rest =~= rest);
                },
                Err(_) => {
                },
            }
        }
        while i < num_entries
            invariant
                i <= num_entries,
                pos <= len == bytes@.len(),
                entries@.len() == i,
                decode_entries(bytes@, num_entries as nat) == prepend_entries(
                    entry_views(entries@),
                    decode_entries(bytes@.skip(pos as int), (num_entries - i) as nat),
                ),
            decreases num_entries - i,
        {
            let ghost suffix = bytes@.skip(pos as int);
            let ghost old_entries = entries@;
            let ghost old_pos = pos as int;
            let ghost remaining = (num_entries - i) as nat;
            let entry = match IndexEntry::read(bytes, pos) {
                Ok(er) => er,
                Err(e) => {
                    return Err(e);
                },
            };
            let (entry, next) = entry;
            let name_len = entry.name_len();
            let padding_len = 8 - ((6 + name_len) % 8);
            proof {
                lemma_padding_range(name_len as int);
                assert(decode_entry(suffix) == Ok::<(EntryView, int), NitError>(
                    (entry@, next - pos),
                ));
            }
            if len - next < padding_len {
                proof {
                    assert(suffix.len() < (next - pos) + pad_len(name_len as int));
                }
                return Err(NitError::Format);
            }
            let new_pos = next + padding_len;
            entries.push(entry);
            pos = new_pos;
            i = i + 1;
            proof {
                let total = (next - old_pos) + pad_len(name_len as int);
                assert(suffix.len() >= total);
                assert(suffix.skip(total) =~= bytes@.skip(pos as int));
                let tail = decode_entries(bytes@.skip(pos as int), (num_entries - i) as nat);
                assert(decode_entries(suffix, remaining) == (match tail {
                    Ok(rest) => Ok::<Seq<EntryView>, NitError>(seq![entry@] + rest),
                    Err(e) => Err(e),
                }));
                assert(entry_views(entries@) =~= entry_views(old_entries).push(entry@));
                match tail {
                    Ok(rest) => {
                        assert(entry_views(old_entries) + (seq![entry@] + rest) =~= entry_views(
                            entries@,
                        ) + rest);
                    },
                    Err(_) => {
                    },
                }
            }
        }
        proof {
            assert(decode_entries(bytes@.skip(pos as int), 0) == Ok::<Seq<EntryView>, NitError>(
                Seq::empty(),
            ));
            assert(entry_views(entries@) + Seq::<EntryView>::empty() =~= entry_views(entries@));
        }
        Ok(entries)
    }

    /// Decodes a whole index from its binary form.
    pub fn decode(bytes: &[u8]) -> (r: Result<Index, NitError>)
        ensures
            r matches Ok(idx) ==> spec_decode(bytes@) == Ok::<IndexView, NitError>(idx@)
                && index_wf(idx@),
            r matches Err(e) ==> spec_decode(bytes@) == Err::<IndexView, NitError>(e),
    {
        let header = match Index::read_header(bytes) {
            Ok(h) => h,
            Err(e) => {
                return Err(e);
            },
        };
        if header.signature != INDEX_SIGNATURE {
            return Err(NitError::Format);
        }
        if header.version != INDEX_VERSION {
            return Err(NitError::Format);
        }
        let rest = vstd::slice::slice_subrange(bytes, 12, bytes.len());
        proof {
            assert(rest@ =~= bytes@.skip(12));
        }
        let entries = match Index::read_entries(rest, header.num_entries as usize) {
            Ok(v) => v,
            Err(e) => {
                return Err(e);
            },
        };
        let idx = Index { header, entries };
        proof {
            assert(idx@.entries =~= entry_views(idx.entries@));
            lemma_decoded_entries_wf(rest@, header.num_entries as nat);
            assert(spec_decode(bytes@) == Ok::<IndexView, NitError>(idx@));
        }
        Ok(idx)
    }

    /// Encodes the index back into its binary form: the three header
    /// words, then every entry with its padding.
    #[verifier::rlimit(100)]
    pub fn to_bytes(&self) -> (r: Vec<u8>)
        ensures
            r@ == encode_index(self@),
    {
        let mut out: Vec<u8> = Vec::new();
        push_u32_be(&mut out, self.header.signature);
        push_u32_be(&mut out, self.header.version);
        push_u32_be(&mut out, self.header.num_entries);
        let ghost header_part = out@;
        let n = self.entries.len();
        let mut i: usize = 0;
        proof {
            assert(entry_views(self.entries@).take(0) =~= Seq::<EntryView>::empty());
            assert(out@ =~= header_part + encode_entries(entry_views(self.entries@).take(0)));
        }
        while i < n
            invariant
                n == self.entries@.len(),
                i <= n,
                header_part == u32_be(self.header.signature) + u32_be(self.header.version)
                    + u32_be(self.header.num_entries),
                out@ == header_part + encode_entries(entry_views(self.entries@).take(i as int)),
            decreases n - i,
        {
            let ghost before = out@;
            let e = &self.entries[i];
            push_u32_be(&mut out, e.ctime_sec);
            push_u32_be(&mut out, e.ctime_nano);
            push_u32_be(&mut out, e.mtime_sec);
            push_u32_be(&mut out, e.mtime_nano);
            push_u32_be(&mut out, e.dev);
            push_u32_be(&mut out, e.ino);
            push_u32_be(&mut out, e.mode);
            push_u32_be(&mut out, e.uid);
            push_u32_be(&mut out, e.gid);
            push_u32_be(&mut out, e.size);
            push_bytes(&mut out, e.key.0.as_slice());
            push_u16_be(&mut out, e.flags);
            push_bytes(&mut out, e.name.as_slice());
            let name_len = e.name_len();
            let padding_len = 8 - ((6 + name_len) % 8);
            let ghost named = out@;
            let mut j: usize = 0;
            while j < padding_len
                invariant
                    j <= padding_len,
                    out@ == named + Seq::new(j as nat, |k: int| 0u8),
                decreases padding_len - j,
            {
                out.push(0);
                assert(out@ =~= named + Seq::new((j + 1) as nat, |k: int| 0u8));
                j = j + 1;
            }
            proof {
                assert(padding_len == pad_len((e.flags & 0xfff) as int));
                assert(out@ =~= before + encode_entry(e@));
                let views = entry_views(self.entries@);
                lemma_encode_entries_push(views.take(i as int), e@);
                assert(views.take(i + 1) =~= views.take(i as int).push(views[i as int]));
                assert(out@ =~= header_part + encode_entries(views.take(i + 1)));
            }
            i = i + 1;
        }
        proof {
            assert(entry_views(self.entries@).take(n as int) =~= entry_views(self.entries@));
            assert(out@ =~= encode_index(self@));
        }
        out
    }

    /// The legacy flat tree rendering: every entry as a blob record of
    /// one implicit root, in index order, with no sorting and no nesting.
    pub fn to_tree_bytes(&self) -> (r: Vec<u8>)
        ensures
            r@ == tree_bytes_of(self@.entries),
    {
        let mut out: Vec<u8> = Vec::new();
        let n = self.entries.len();
        let mut i: usize = 0;
        proof {
            assert(entry_views(self.entries@).take(0) =~= Seq::<EntryView>::empty());
            assert(out@ =~= tree_bytes_of(entry_views(self.entries@).take(0)));
        }
        while i < n
            invariant
                n == self.entries@.len(),
                i <= n,
                out@ == tree_bytes_of(entry_views(self.entries@).take(i as int)),
            decreases n - i,
        {
            let ghost before = out@;
            let e = &self.entries[i];
            crate::object::ObjectKind::Blob.push_mode_text(&mut out);
            out.push(32);
            push_bytes(&mut out, e.name.as_slice());
            out.push(0);
            push_bytes(&mut out, e.key.0.as_slice());
            proof {
                assert(out@ =~= before + entry_tree_record(e@));
                let views = entry_views(self.entries@);
                lemma_tree_bytes_push(views.take(i as int), e@);
                assert(views.take(i + 1) =~= views.take(i as int).push(views[i as int]));
                assert(out@ =~= tree_bytes_of(views.take(i + 1)));
            }
            i = i + 1;
        }
        proof {
            assert(entry_views(self.entries@).take(n as int) =~= self@.entries);
        }
        out
    }
}

/// The flat tree record of one entry, as `to_tree_bytes` writes it: the
/// blob mode text, a space, the name, a NUL, and the twenty key bytes.
pub open spec fn entry_tree_record(e: EntryView) -> Seq<u8> {
    crate::object::mode_text(crate::object::ObjectKind::Blob) + seq![32u8] + e.name + seq![0u8]
        + e.key
}

/// The concatenated flat tree records of a run of entries.
pub open spec fn tree_bytes_of(es: Seq<EntryView>) -> Seq<u8>
    decreases es.len(),
{
    if es.len() == 0 {
        Seq::empty()
    } else {
        entry_tree_record(es.first()) + tree_bytes_of(es.drop_first())
    }
}

/// Appending an entry appends its encoding.
proof fn lemma_encode_entries_push(es: Seq<EntryView>, e: EntryView)
    ensures
        encode_entries(es.push(e)) == encode_entries(es) + encode_entry(e),
    decreases es.len(),
{
    if es.len() == 0 {
        assert(es.push(e).first() == e);
        assert(es.push(e).drop_first() =~= Seq::<EntryView>::empty());
        assert(encode_entries(es.push(e)) == encode_entry(e) + encode_entries(
            Seq::<EntryView>::empty(),
        ));
        assert(encode_entry(e) + Seq::<u8>::empty() =~= Seq::<u8>::empty() + encode_entry(e));
    } else {
        assert(es.push(e).first() == es.first());
        assert(es.push(e).drop_first() =~= es.drop_first().push(e));
        lemma_encode_entries_push(es.drop_first(), e);
        assert(encode_entries(es.push(e)) == encode_entry(es.first()) + (encode_entries(
            es.drop_first(),
        ) + encode_entry(e)));
        assert(encode_entry(es.first()) + (encode_entries(es.drop_first()) + encode_entry(e))
            =~= (encode_entry(es.first()) + encode_entries(es.drop_first())) + encode_entry(e));
    }
}

/// Appending an entry appends its flat tree record.
proof fn lemma_tree_bytes_push(es: Seq<EntryView>, e: EntryView)
    ensures
        tree_bytes_of(es.push(e)) == tree_bytes_of(es) + entry_tree_record(e),
    decreases es.len(),
{
    if es.len() == 0 {
        assert(es.push(e).first() == e);
        assert(es.push(e).drop_first() =~= Seq::<EntryView>::empty());
        assert(tree_bytes_of(es.push(e)) == entry_tree_record(e) + tree_bytes_of(
            Seq::<EntryView>::empty(),
        ));
        assert(entry_tree_record(e) + Seq::<u8>::empty() =~= Seq::<u8>::empty()
            + entry_tree_record(e));
    } else {
        assert(es.push(e).first() == es.first());
        assert(es.push(e).drop_first() =~= es.drop_first().push(e));
        lemma_tree_bytes_push(es.drop_first(), e);
        assert(tree_bytes_of(es.push(e)) == entry_tree_record(es.first()) + (tree_bytes_of(
            es.drop_first(),
        ) + entry_tree_record(e)));
        assert(entry_tree_record(es.first()) + (tree_bytes_of(es.drop_first())
            + entry_tree_record(e)) =~= (entry_tree_record(es.first()) + tree_bytes_of(
            es.drop_first(),
        )) + entry_tree_record(e));
    }
}

/// Every entry that decoding yields is well formed.
pub proof fn lemma_decoded_entries_wf(bytes: Seq<u8>, n: nat)
    ensures
        decode_entries(bytes, n) matches Ok(es) ==> es.len() == n && forall|i: int|
            0 <= i < es.len() ==> entry_wf(#[trigger] es[i]),
    decreases n,
{
    if n > 0 {
        match decode_entry(bytes) {
            Ok((entry, used)) => {
                let total = used + pad_len((entry.flags & 0xfff) as int);
                if bytes.len() >= total {
                    lemma_decoded_entries_wf(bytes.skip(total), (n - 1) as nat);
                }
            },
            Err(_) => {
            },
        }
    }
}

impl IndexEntry {
    /// Reads one entry, without its padding, starting at `pos`. Returns
    /// the entry and the offset just past its name.
    pub fn read(bytes: &[u8], pos: usize) -> (r: Result<(IndexEntry, usize), NitError>)
        requires
            pos <= bytes@.len(),
        ensures
            r matches Ok(en) ==> decode_entry(bytes@.skip(pos as int)) == Ok::<
                (EntryView, int),
                NitError,
            >((en.0@, en.1 - pos)) && pos + 62 <= en.1 <= bytes@.len() && en.1 - pos - 62 == (
            en.0.flags & 0xfff),
            r matches Err(e) ==> decode_entry(bytes@.skip(pos as int)) == Err::<
                (EntryView, int),
                NitError,
            >(e),
    {
        let ghost suffix = bytes@.skip(pos as int);
        let len = bytes.len();
        if len - pos < 62 {
            return Err(NitError::Format);
        }
        let (ctime_sec, p1) = take_u32(bytes, pos);
        let (ctime_nano, p2) = take_u32(bytes, p1);
        let (mtime_sec, p3) = take_u32(bytes, p2);
        let (mtime_nano, p4) = take_u32(bytes, p3);
        let (dev, p5) = take_u32(bytes, p4);
        let (ino, p6) = take_u32(bytes, p5);
        let (mode, p7) = take_u32(bytes, p6);
        let (uid, p8) = take_u32(bytes, p7);
        let (gid, p9) = take_u32(bytes, p8);
        let (size, p10) = take_u32(bytes, p9);
        let (key, p11) = take_hash(bytes, p10);
        let (flags, p12) = take_u16(bytes, p11);
        let name_len = (flags & 0x0fff) as usize;
        proof {
            assert(suffix.subrange(60, 62) =~= bytes@.subrange(pos + 60, pos + 62));
        }
        if len - p12 < name_len {
            proof {
                assert(suffix.len() < 62 + (flags & 0xfff));
            }
            return Err(NitError::Format);
        }
        let (name, p13) = take_n_bytes(bytes, p12, name_len);
        proof {
            assert(suffix.subrange(62, 62 + (flags & 0xfff)) =~= bytes@.subrange(
                pos + 62,
                pos + 62 + (flags & 0xfff),
            ));
        }
        if !check_utf8(name.as_slice()) {
            return Err(NitError::Encoding);
        }
        let entry = IndexEntry {
            ctime_sec,
            ctime_nano,
            mtime_sec,
            mtime_nano,
            dev,
            ino,
            mode,
            uid,
            gid,
            size,
            key,
            flags,
            name,
        };
        proof {
            assert(suffix.subrange(0, 4) =~= bytes@.subrange(pos as int, pos + 4));
            assert(suffix.subrange(4, 8) =~= bytes@.subrange(pos + 4, pos + 8));
            assert(suffix.subrange(8, 12) =~= bytes@.subrange(pos + 8, pos + 12));
            assert(suffix.subrange(12, 16) =~= bytes@.subrange(pos + 12, pos + 16));
            assert(suffix.subrange(16, 20) =~= bytes@.subrange(pos + 16, pos + 20));
            assert(suffix.subrange(20, 24) =~= bytes@.subrange(pos + 20, pos + 24));
            assert(suffix.subrange(24, 28) =~= bytes@.subrange(pos + 24, pos + 28));
            assert(suffix.subrange(28, 32) =~= bytes@.subrange(pos + 28, pos + 32));
            assert(suffix.subrange(32, 36) =~= bytes@.subrange(pos + 32, pos + 36));
            assert(suffix.subrange(36, 40) =~= bytes@.subrange(pos + 36, pos + 40));
            assert(suffix.subrange(40, 60) =~= bytes@.subrange(pos + 40, pos + 60));
            let decoded = decode_entry(suffix);
            assert(decoded matches Ok(d) && d.0 =~= entry@ && d.1 == p13 - pos);
        }
        Ok((entry, p13))
    }

    /// The name's byte length, as the flags word records it.
    pub fn name_len(&self) -> (r: usize)
        ensures
            r == (self.flags & 0xfff),
    {
        IndexEntry::name_len_from_flags(self.flags)
    }

    /// The name length held in the low twelve bits of a flags word.
    pub fn name_len_from_flags(flags: u16) -> (r: usize)
        ensures
            r == (flags & 0xfff),
    {
        (flags & 0x0fff) as usize
    }

    /// Builds the entry for a freshly hashed file: the metadata comes in
    /// as plain words, the mode is the regular-file type with `0644`
    /// permission, and the flags word records the name's byte length.
    pub fn create(key: crate::hash::Hash, filename: &str, stat: FileStat) -> (r: IndexEntry)
        requires
            filename.spec_bytes().len() < 0xfff,
        ensures
            r@ == (EntryView {
                ctime_sec: stat.ctime_sec,
                ctime_nano: stat.ctime_nano,
                mtime_sec: stat.mtime_sec,
                mtime_nano: stat.mtime_nano,
                dev: stat.dev,
                ino: stat.ino,
                mode: 33188u32,
                uid: stat.uid,
                gid: stat.gid,
                size: stat.size,
                key: key.0@,
                flags: filename.spec_bytes().len() as u16,
                name: filename.spec_bytes(),
            }),
            entry_wf(r@),
    {
        let name = filename.as_bytes_vec();
        let flags = name.len() as u16;
        let mode: u32 = (1000 & 0x00f) << 12 | 0o0644 & 0x1ff;
        proof {
            broadcast use vstd::utf8::encode_utf8_valid_utf8;

            assert(((1000u32 & 0x00f) << 12 | 0o0644u32 & 0x1ff) == 33188u32) by (bit_vector);
            let len = filename.spec_bytes().len() as u16;
            assert(len < 0xfff ==> (len & 0xfff) == len) by (bit_vector);
        }
        IndexEntry {
            ctime_sec: stat.ctime_sec,
            ctime_nano: stat.ctime_nano,
            mtime_sec: stat.mtime_sec,
            mtime_nano: stat.mtime_nano,
            dev: stat.dev,
            ino: stat.ino,
            mode,
            uid: stat.uid,
            gid: stat.gid,
            size: stat.size,
            key,
            flags,
            name,
        }
    }

    /// The object type: the top four bits of the mode word.
    pub fn object_type(&self) -> (r: u32)
        ensures
            r == (self.mode >> 12) & 0xf,
    {
        (self.mode >> 12) & 0x00f
    }

    /// The unix permission: the low nine bits of the mode word.
    pub fn permission(&self) -> (r: u32)
        ensures
            r == self.mode & 0x1ff,
    {
        self.mode & 0x1ff
    }
}

/// The filesystem metadata of one staged file, as plain words.
#[derive(Debug, Clone, Copy, PartialEq, Eq, Structural)]
pub struct FileStat {
    pub ctime_sec: u32,
    pub ctime_nano: u32,
    pub mtime_sec: u32,
    pub mtime_nano: u32,
    pub dev: u32,
    pub ino: u32,
    pub uid: u32,
    pub gid: u32,
    pub size: u32,
}

/// The encoding of a well-formed entry is its sixty-two fixed bytes, its
/// name, and its padding.
proof fn lemma_encode_entry_len(e: EntryView)
    requires
        entry_wf(e),
    ensures
        encode_entry(e).len() == 62 + (e.flags & 0xfff) + pad_len((e.flags & 0xfff) as int),
{
    lemma_padding_range((e.flags & 0xfff) as int);
}

/// The first five metadata words sit at their offsets in an encoded
/// entry, whatever follows it.
#[verifier::rlimit(100)]
#[verifier::spinoff_prover]
proof fn lemma_entry_layout_a(e: EntryView, rest: Seq<u8>)
    requires
        entry_wf(e),
    ensures
        (encode_entry(e) + rest).subrange(0, 4) == u32_be(e.ctime_sec),
        (encode_entry(e) + rest).subrange(4, 8) == u32_be(e.ctime_nano),
        (encode_entry(e) + rest).subrange(8, 12) == u32_be(e.mtime_sec),
        (encode_entry(e) + rest).subrange(12, 16) == u32_be(e.mtime_nano),
        (encode_entry(e) + rest).subrange(16, 20) == u32_be(e.dev),
{
    lemma_padding_range((e.flags & 0xfff) as int);
    let enc = encode_entry(e) + rest;
    assert(enc.subrange(0, 4) =~= u32_be(e.ctime_sec));
    assert(enc.subrange(4, 8) =~= u32_be(e.ctime_nano));
    assert(enc.subrange(8, 12) =~= u32_be(e.mtime_sec));
    assert(enc.subrange(12, 16) =~= u32_be(e.mtime_nano));
    assert(enc.subrange(16, 20) =~= u32_be(e.dev));
}

/// The last five metadata words sit at their offsets in an encoded
/// entry, whatever follows it.
#[verifier::rlimit(100)]
#[verifier::spinoff_prover]
proof fn lemma_entry_layout_b(e: EntryView, rest: Seq<u8>)
    requires
        entry_wf(e),
    ensures
        (encode_entry(e) + rest).subrange(20, 24) == u32_be(e.ino),
        (encode_entry(e) + rest).subrange(24, 28) == u32_be(e.mode),
        (encode_entry(e) + rest).subrange(28, 32) == u32_be(e.uid),
        (encode_entry(e) + rest).subrange(32, 36) == u32_be(e.gid),
        (encode_entry(e) + rest).subrange(36, 40) == u32_be(e.size),
{
    lemma_padding_range((e.flags & 0xfff) as int);
    let enc = encode_entry(e) + rest;
    assert(enc.subrange(20, 24) =~= u32_be(e.ino));
    assert(enc.subrange(24, 28) =~= u32_be(e.mode));
    assert(enc.subrange(28, 32) =~= u32_be(e.uid));
    assert(enc.subrange(32, 36) =~= u32_be(e.gid));
    assert(enc.subrange(36, 40) =~= u32_be(e.size));
}

/// The key, the flags word and the name sit at their offsets in an
/// encoded entry, whatever follows it.
#[verifier::rlimit(100)]
#[verifier::spinoff_prover]
proof fn lemma_entry_layout_c(e: EntryView, rest: Seq<u8>)
    requires
        entry_wf(e),
    ensures
        (encode_entry(e) + rest).subrange(40, 60) == e.key,
        (encode_entry(e) + rest).subrange(60, 62) == u16_be(e.flags),
        (encode_entry(e) + rest).subrange(62, 62 + (e.flags & 0xfff)) == e.name,
{
    let nl = (e.flags & 0xfff) as int;
    lemma_padding_range(nl);
    let enc = encode_entry(e) + rest;
    assert(enc.subrange(40, 60) =~= e.key);
    assert(enc.subrange(60, 62) =~= u16_be(e.flags));
    assert(enc.subrange(62, 62 + nl) =~= e.name);
}

/// Decoding the front of an encoded well-formed entry gives the entry
/// back, whatever follows it.
#[verifier::rlimit(100)]
#[verifier::spinoff_prover]
proof fn lemma_decode_entry_inverse(e: EntryView, rest: Seq<u8>)
    requires
        entry_wf(e),
    ensures
        decode_entry(encode_entry(e) + rest) == Ok::<(EntryView, int), NitError>(
            (e, 62 + (e.flags & 0xfff)),
        ),
{
    let nl = (e.flags & 0xfff) as int;
    lemma_padding_range(nl);
    lemma_encode_entry_len(e);
    let enc = encode_entry(e) + rest;
    lemma_entry_layout_a(e, rest);
    lemma_entry_layout_b(e, rest);
    lemma_entry_layout_c(e, rest);
    lemma_be16_round_trip(e.flags);
    lemma_be32_round_trip(e.ctime_sec);
    lemma_be32_round_trip(e.ctime_nano);
    lemma_be32_round_trip(e.mtime_sec);
    lemma_be32_round_trip(e.mtime_nano);
    lemma_be32_round_trip(e.dev);
    lemma_be32_round_trip(e.ino);
    lemma_be32_round_trip(e.mode);
    lemma_be32_round_trip(e.uid);
    lemma_be32_round_trip(e.gid);
    lemma_be32_round_trip(e.size);
    let decoded = decode_entry(enc);
    assert(decoded matches Ok(d) && d.0 =~= e && d.1 == 62 + nl);
}

/// Decoding as many entries as were encoded gives the entries back.
#[verifier::rlimit(100)]
proof fn lemma_decode_entries_inverse(es: Seq<EntryView>)
    requires
        forall|i: int| 0 <= i < es.len() ==> entry_wf(#[trigger] es[i]),
    ensures
        decode_entries(encode_entries(es), es.len()) == Ok::<Seq<EntryView>, NitError>(es),
    decreases es.len(),
{
    if es.len() > 0 {
        let e = es.first();
        let tail = es.drop_first();
        let enc = encode_entries(es);
        assert(enc == encode_entry(e) + encode_entries(tail));
        lemma_decode_entry_inverse(e, encode_entries(tail));
        assert(decode_entry(enc) == Ok::<(EntryView, int), NitError>((e, 62 + (e.flags & 0xfff))));
        let nl = (e.flags & 0xfff) as int;
        let total = 62 + nl + pad_len(nl);
        lemma_encode_entry_len(e);
        lemma_padding_range(nl);
        assert(enc.len() >= total);
        assert(enc.skip(total) =~= encode_entries(tail));
        lemma_decode_entries_inverse(tail);
        assert(decode_entries(enc.skip(total), tail.len()) == Ok::<Seq<EntryView>, NitError>(tail));
        assert(decode_entries(enc, es.len()) == Ok::<Seq<EntryView>, NitError>(seq![e] + tail));
        assert(seq![e] + tail =~= es);
    } else {
        assert(es =~= Seq::<EntryView>::empty());
    }
}

/// Whatever decoding accepts is well formed: the signature and version
/// are the supported ones, the count matches the entries, and every
/// entry's key, flags and name agree.
pub proof fn lemma_decode_wf(bytes: Seq<u8>)
    ensures
        spec_decode(bytes) matches Ok(v) ==> index_wf(v),
{
    if bytes.len() >= 12 {
        lemma_decoded_entries_wf(bytes.skip(12), be32(bytes.subrange(8, 12)) as nat);
    }
}

/// The decode→encode round trip is stable: re-encoding a decoded index
/// yields bytes that decode to the same index again, and on bytes that
/// an encode produced it reproduces them byte for byte.
pub proof fn lemma_encode_after_decode(bytes: Seq<u8>)
    ensures
        spec_decode(bytes) matches Ok(v) ==> spec_decode(encode_index(v)) == Ok::<
            IndexView,
            NitError,
        >(v),
        (exists|w: IndexView| index_wf(w) && bytes == encode_index(w)) ==> (spec_decode(bytes)
            matches Ok(v) && encode_index(v) == bytes),
{
    match spec_decode(bytes) {
        Ok(v) => {
            lemma_decode_wf(bytes);
            lemma_round_trip(v);
        },
        Err(_) => {
        },
    }
    if exists|w: IndexView| index_wf(w) && bytes == encode_index(w) {
        let w = choose|w: IndexView| index_wf(w) && bytes == encode_index(w);
        lemma_round_trip(w);
    }
}

/// Decoding the encoding of a well-formed index gives the index back,
/// field for field and entry for entry.
#[verifier::rlimit(100)]
pub proof fn lemma_round_trip(v: IndexView)
    requires
        index_wf(v),
    ensures
        spec_decode(encode_index(v)) == Ok::<IndexView, NitError>(v),
{
    let enc = encode_index(v);
    assert(enc.subrange(0, 4) =~= u32_be(v.signature));
    lemma_be32_round_trip(v.signature);
    assert(enc.subrange(4, 8) =~= u32_be(v.version));
    lemma_be32_round_trip(v.version);
    assert(enc.subrange(8, 12) =~= u32_be(v.num_entries));
    lemma_be32_round_trip(v.num_entries);
    assert(enc.skip(12) =~= encode_entries(v.entries));
    lemma_decode_entries_inverse(v.entries);
    let decoded = spec_decode(enc);
    assert(decoded matches Ok(d) && d =~= v);
}

} // verus!
