//! Tree objects and the assembly of a hierarchy of them from the flat
//! staging index. A tree's payload is the concatenation of its records,
//! one per child, ordered byte-wise by name; each record is the child's
//! mode text, a space, its name, a NUL, and its twenty hash bytes.

use vstd::prelude::*;
use vstd::utf8::valid_utf8;
use crate::error::NitError;
use crate::object::{mode_text, object_hash, ObjectKind};
use crate::store::{spec_store_write, ObjectStore};
use crate::util::{
    bytes_eq, bytes_leq, check_utf8, find_byte, lemma_lex_leq_total, lemma_spec_find, lex_leq,
    push_bytes, spec_find, take_hash,
};

verus! {

broadcast use vstd::std_specs::vec::group_vec_axioms, vstd::seq_lib::group_to_multiset_ensures;

/// One child of a tree: its hash, its kind, and its name (a path segment,
/// or a relative sub-path while assembly is still routing it).
#[derive(Debug, Clone, PartialEq, Eq)]
pub struct TreeEntry {
    pub key: crate::hash::Hash,
    pub mode: ObjectKind,
    pub name: Vec<u8>,
}

/// The mathematical value of one tree child.
#[verifier::ext_equal]
pub struct TreeEntryView {
    pub key: Seq<u8>,
    pub mode: ObjectKind,
    pub name: Seq<u8>,
}

impl View for TreeEntry {
    type V = TreeEntryView;

    open spec fn view(&self) -> TreeEntryView {
        TreeEntryView { key: self.key.0@, mode: self.mode, name: self.name@ }
    }
}

/// A decoded tree object: its children in payload order.
#[derive(Debug, Clone, PartialEq, Eq)]
pub struct Tree {
    pub entries: Vec<TreeEntry>,
}

/// The record of one child in a tree payload.
pub open spec fn tree_record(mode: ObjectKind, name: Seq<u8>, key: Seq<u8>) -> Seq<u8> {
    mode_text(mode) + seq![32u8] + name + seq![0u8] + key
}

/// The views of a run of tree children.
pub open spec fn tree_entry_views(es: Seq<TreeEntry>) -> Seq<TreeEntryView> {
    Seq::new(es.len(), |i: int| es[i]@)
}

/// The concatenated records of a run of tree children, in their given
/// order.
pub open spec fn tree_payload_of(es: Seq<TreeEntryView>) -> Seq<u8>
    decreases es.len(),
{
    if es.len() == 0 {
        Seq::empty()
    } else {
        tree_record(es.first().mode, es.first().name, es.first().key) + tree_payload_of(
            es.drop_first(),
        )
    }
}

/// Appending a child appends its record.
proof fn lemma_tree_payload_push(es: Seq<TreeEntryView>, e: TreeEntryView)
    ensures
        tree_payload_of(es.push(e)) == tree_payload_of(es) + tree_record(e.mode, e.name, e.key),
    decreases es.len(),
{
    let rec = tree_record(e.mode, e.name, e.key);
    if es.len() == 0 {
        assert(es.push(e).first() == e);
        assert(es.push(e).drop_first() =~= Seq::<TreeEntryView>::empty());
        assert(tree_payload_of(es.push(e)) == rec + tree_payload_of(Seq::<TreeEntryView>::empty()));
        assert(rec + Seq::<u8>::empty() =~= Seq::<u8>::empty() + rec);
    } else {
        let f = es.first();
        let frec = tree_record(f.mode, f.name, f.key);
        assert(es.push(e).first() == f);
        assert(es.push(e).drop_first() =~= es.drop_first().push(e));
        lemma_tree_payload_push(es.drop_first(), e);
        assert(tree_payload_of(es.push(e)) == frec + (tree_payload_of(es.drop_first()) + rec));
        assert(frec + (tree_payload_of(es.drop_first()) + rec) =~= (frec + tree_payload_of(
            es.drop_first(),
        )) + rec);
    }
}

/// The five-character mode text `40000`, as tree objects on disk write
/// the tree mode.
pub open spec fn short_tree_mode() -> Seq<u8> {
    seq![52u8, 48u8, 48u8, 48u8, 48u8]
}

/// The kind named by a mode text in a tree object: `100644` is a blob and
/// `40000` a tree; anything else is unknown.
pub open spec fn spec_mode_from_text(t: Seq<u8>) -> Option<ObjectKind> {
    if t == mode_text(ObjectKind::Blob) {
        Some(ObjectKind::Blob)
    } else if t == short_tree_mode() {
        Some(ObjectKind::Tree)
    } else {
        None
    }
}

/// Parses one tree record from the front of `bytes`: the text up to the
/// first NUL must be valid UTF-8 and hold a known mode text, a space, and
/// a name (cut at the next space, as the reader splits on spaces); twenty
/// key bytes follow the NUL. Returns the child and the bytes consumed, or
/// `None` when no well-formed record starts here.
pub open spec fn parse_tree_entry(bytes: Seq<u8>) -> Option<(TreeEntryView, int)> {
    match spec_find(bytes, 0u8) {
        None => None,
        Some(p) => {
            let content = bytes.subrange(0, p);
            if !valid_utf8(content) {
                None
            } else {
                match spec_find(content, 32u8) {
                    None => None,
                    Some(sp) => {
                        let after = content.subrange(sp + 1, p);
                        let name = match spec_find(after, 32u8) {
                            Some(q) => after.subrange(0, q),
                            None => after,
                        };
                        match spec_mode_from_text(content.subrange(0, sp)) {
                            None => None,
                            Some(mode) => {
                                if bytes.len() < p + 21 {
                                    None
                                } else {
                                    Some(
                                        (
                                            TreeEntryView {
                                                key: bytes.subrange(p + 1, p + 21),
                                                mode,
                                                name,
                                            },
                                            p + 21,
                                        ),
                                    )
                                }
                            },
                        }
                    },
                }
            }
        },
    }
}

/// A parsed record consumes at least its NUL and key, and no more than
/// there is.
pub proof fn lemma_parse_tree_entry_bounds(bytes: Seq<u8>)
    ensures
        parse_tree_entry(bytes) matches Some(r) ==> 21 <= r.1 <= bytes.len(),
{
    match spec_find(bytes, 0u8) {
        Some(p) => {
            lemma_spec_find(bytes, 0u8);
        },
        None => {
        },
    }
}

/// Parses tree records from the front of `bytes` until none starts at the
/// cursor.
pub open spec fn parse_tree_entries(bytes: Seq<u8>) -> Seq<TreeEntryView>
    decreases bytes.len(),
{
    match parse_tree_entry(bytes) {
        None => Seq::empty(),
        Some((e, used)) => if 0 < used <= bytes.len() {
            seq![e] + parse_tree_entries(bytes.skip(used))
        } else {
            seq![e]
        },
    }
}

/// Where a tree object's payload starts: just past the first NUL of the
/// frame header, or at the start when there is none.
pub open spec fn header_end(bytes: Seq<u8>) -> int {
    match spec_find(bytes, 0u8) {
        Some(p) => p + 1,
        None => 0,
    }
}

/// The kind named by a mode text, or `None` for any other text.
pub fn mode_from_text(t: &[u8]) -> (r: Option<ObjectKind>)
    ensures
        r == spec_mode_from_text(t@),
{
    if t.len() == 6 && t[0] == 49 && t[1] == 48 && t[2] == 48 && t[3] == 54 && t[4] == 52 && t[5]
        == 52 {
        proof {
            assert(t@ =~= mode_text(ObjectKind::Blob));
        }
        Some(ObjectKind::Blob)
    } else if t.len() == 5 && t[0] == 52 && t[1] == 48 && t[2] == 48 && t[3] == 48 && t[4] == 48 {
        proof {
            assert(t@ =~= short_tree_mode());
        }
        Some(ObjectKind::Tree)
    } else {
        proof {
            assert(t@ != mode_text(ObjectKind::Blob));
            assert(t@ != short_tree_mode());
        }
        None
    }
}

impl TreeEntry {
    /// Builds a tree child from its parts.
    pub fn new(key: crate::hash::Hash, mode: ObjectKind, name: Vec<u8>) -> (r: TreeEntry)
        ensures
            r@ == (TreeEntryView { key: key.0@, mode, name: name@ }),
    {
        TreeEntry { key, mode, name }
    }

    /// Reads one tree record starting at `pos`, returning the child and
    /// the offset just past its key.
    pub fn _read(bytes: &[u8], pos: usize) -> (r: Option<(TreeEntry, usize)>)
        requires
            pos <= bytes@.len(),
        ensures
            r matches Some(en) ==> parse_tree_entry(bytes@.skip(pos as int)) == Some(
                (en.0@, en.1 - pos as int),
            ) && pos + 21 <= en.1 <= bytes@.len(),
            r is None ==> parse_tree_entry(bytes@.skip(pos as int)) is None,
    {
        let ghost suffix = bytes@.skip(pos as int);
        let len = bytes.len();
        let tail = vstd::slice::slice_subrange(bytes, pos, len);
        proof {
            assert(tail@ =~= suffix);
        }
        let p = match find_byte(tail, 0) {
            Some(p) => p,
            None => {
                return None;
            },
        };
        proof {
            lemma_spec_find(suffix, 0u8);
        }
        let content = vstd::slice::slice_subrange(tail, 0, p);
        proof {
            assert(content@ =~= suffix.subrange(0, p as int));
        }
        if !check_utf8(content) {
            return None;
        }
        let sp = match find_byte(content, 32) {
            Some(sp) => sp,
            None => {
                return None;
            },
        };
        proof {
            lemma_spec_find(content@, 32u8);
        }
        let after = vstd::slice::slice_subrange(content, sp + 1, p);
        proof {
            assert(after@ =~= content@.subrange(sp + 1, p as int));
        }
        let q_opt = find_byte(after, 32);
        proof {
            lemma_spec_find(after@, 32u8);
        }
        let name = match q_opt {
            Some(q) => vstd::slice::slice_subrange(after, 0, q),
            None => after,
        };
        proof {
            match spec_find(after@, 32u8) {
                Some(q) => {
                    assert(name@ =~= after@.subrange(0, q));
                },
                None => {
                },
            }
        }
        let modetxt = vstd::slice::slice_subrange(content, 0, sp);
        proof {
            assert(modetxt@ =~= content@.subrange(0, sp as int));
        }
        let mode = match mode_from_text(modetxt) {
            Some(m) => m,
            None => {
                return None;
            },
        };
        if (len - pos) - p < 21 {
            return None;
        }
        let (key, next) = take_hash(bytes, pos + p + 1);
        proof {
            assert(key.0@ =~= suffix.subrange(p + 1, p + 21));
        }
        let name_vec = vstd::slice::slice_to_vec(name);
        Some((TreeEntry { key, mode, name: name_vec }, next))
    }

    /// The record of this child, as it stands in a tree payload.
    pub fn as_bytes(&self) -> (r: Vec<u8>)
        ensures
            r@ == tree_record(self.mode, self.name@, self.key.0@),
    {
        let mut out: Vec<u8> = Vec::new();
        self.mode.push_mode_text(&mut out);
        out.push(32);
        push_bytes(&mut out, self.name.as_slice());
        out.push(0);
        push_bytes(&mut out, self.key.0.as_slice());
        assert(out@ =~= tree_record(self.mode, self.name@, self.key.0@));
        out
    }
}

impl Tree {
    /// An empty tree.
    pub fn _new() -> (r: Tree)
        ensures
            r.entries@.len() == 0,
    {
        Tree { entries: Vec::new() }
    }

    /// Where the payload starts: just past the frame header's NUL.
    pub fn _read_header(bytes: &[u8]) -> (r: usize)
        ensures
            r == header_end(bytes@),
            r <= bytes@.len(),
    {
        let len = bytes.len();
        proof {
            lemma_spec_find(bytes@, 0u8);
        }
        match find_byte(bytes, 0) {
            Some(p) => {
                assert(p < len);
                p + 1
            },
            None => 0,
        }
    }

    /// Decodes a framed tree object: skips the header, then reads records
    /// until none starts at the cursor.
    pub fn _read(bytes: &[u8]) -> (r: Tree)
        ensures
            tree_entry_views(r.entries@) == parse_tree_entries(bytes@.skip(header_end(bytes@))),
    {
        let start = Tree::_read_header(bytes);
        let mut entries: Vec<TreeEntry> = Vec::new();
        let mut pos = start;
        proof {
            assert(tree_entry_views(entries@) + parse_tree_entries(bytes@.skip(pos as int))
                =~= parse_tree_entries(bytes@.skip(start as int)));
        }
        while pos <= bytes.len()
            invariant_except_break
                start <= pos <= bytes@.len(),
                tree_entry_views(entries@) + parse_tree_entries(bytes@.skip(pos as int))
                    == parse_tree_entries(bytes@.skip(start as int)),
            ensures
                tree_entry_views(entries@) == parse_tree_entries(bytes@.skip(start as int)),
            decreases bytes@.len() - pos,
        {
            let ghost old_entries = entries@;
            match TreeEntry::_read(bytes, pos) {
                Some((entry, next)) => {
                    let ghost suffix = bytes@.skip(pos as int);
                    proof {
                        lemma_parse_tree_entry_bounds(suffix);
                        assert(suffix.skip(next - pos as int) =~= bytes@.skip(next as int));
                    }
                    entries.push(entry);
                    proof {
                        assert(tree_entry_views(entries@) =~= tree_entry_views(old_entries).push(
                            entry@,
                        ));
                        let rest = parse_tree_entries(bytes@.skip(next as int));
                        assert(parse_tree_entries(suffix) == seq![entry@] + rest);
                        assert(tree_entry_views(old_entries) + (seq![entry@] + rest)
                            =~= tree_entry_views(entries@) + rest);
                    }
                    pos = next;
                },
                None => {
                    proof {
                        assert(parse_tree_entries(bytes@.skip(pos as int))
                            =~= Seq::<TreeEntryView>::empty());
                        assert(tree_entry_views(entries@) + Seq::<TreeEntryView>::empty()
                            =~= tree_entry_views(entries@));
                    }
                    break ;
                },
            }
        }
        Tree { entries }
    }

    /// The payload of this tree: its children's records in order.
    pub fn _to_bytes(&self) -> (r: Vec<u8>)
        ensures
            r@ == tree_payload_of(tree_entry_views(self.entries@)),
    {
        let mut out: Vec<u8> = Vec::new();
        let n = self.entries.len();
        let mut i: usize = 0;
        proof {
            assert(tree_entry_views(self.entries@).take(0) =~= Seq::<TreeEntryView>::empty());
        }
        while i < n
            invariant
                n == self.entries@.len(),
                i <= n,
                out@ == tree_payload_of(tree_entry_views(self.entries@).take(i as int)),
            decreases n - i,
        {
            let ghost before = out@;
            let e = &self.entries[i];
            e.mode.push_mode_text(&mut out);
            out.push(32);
            push_bytes(&mut out, e.name.as_slice());
            out.push(0);
            push_bytes(&mut out, e.key.0.as_slice());
            proof {
                let views = tree_entry_views(self.entries@);
                assert(out@ =~= before + tree_record(e.mode, e.name@, e.key.0@));
                lemma_tree_payload_push(views.take(i as int), views[i as int]);
                assert(views.take(i + 1) =~= views.take(i as int).push(views[i as int]));
            }
            i = i + 1;
        }
        proof {
            assert(tree_entry_views(self.entries@).take(n as int) =~= tree_entry_views(
                self.entries@,
            ));
        }
        out
    }
}

/// A level of the assembly cache built from the flat index: the blobs
/// that sit directly at this level, and the named sub-caches, one per
/// sub-directory seen so far, in first-seen order.
#[derive(Debug)]
pub struct TreeCache {
    pub blobs: Vec<TreeEntry>,
    pub trees: Vec<(Vec<u8>, TreeCache)>,
}

/// The mathematical value of one cache level.
#[verifier::ext_equal]
pub struct CacheView {
    pub blobs: Seq<TreeEntryView>,
    pub trees: Seq<(Seq<u8>, CacheView)>,
}

/// The values of a run of named sub-caches, in order.
pub open spec fn trees_views(ts: Seq<(Vec<u8>, TreeCache)>) -> Seq<(Seq<u8>, CacheView)>
    decreases ts,
{
    if ts.len() == 0 {
        Seq::empty()
    } else {
        seq![(ts.first().0@, cache_view(ts.first().1))] + trees_views(ts.drop_first())
    }
}

/// The value of a cache, level by level.
pub open spec fn cache_view(c: TreeCache) -> CacheView
    decreases c,
{
    CacheView { blobs: tree_entry_views(c.blobs@), trees: trees_views(c.trees@) }
}

/// The value of a run of sub-caches, element by element.
pub proof fn lemma_trees_views(ts: Seq<(Vec<u8>, TreeCache)>)
    ensures
        trees_views(ts).len() == ts.len(),
        forall|i: int|
            0 <= i < ts.len() ==> trees_views(ts)[i] == (ts[i].0@, cache_view(ts[i].1)),
    decreases ts,
{
    if ts.len() > 0 {
        lemma_trees_views(ts.drop_first());
        assert forall|i: int|
            0 <= i < ts.len() implies trees_views(ts)[i] == (ts[i].0@, cache_view(ts[i].1)) by {
            if i > 0 {
                assert(trees_views(ts.drop_first())[i - 1] == (
                    ts.drop_first()[i - 1].0@,
                    cache_view(ts.drop_first()[i - 1].1),
                ));
            }
        }
    }
}

impl View for TreeCache {
    type V = CacheView;

    open spec fn view(&self) -> CacheView {
        cache_view(*self)
    }
}

/// A cache level with nothing in it.
pub open spec fn empty_cache() -> CacheView {
    CacheView { blobs: Seq::empty(), trees: Seq::empty() }
}

/// The first sub-cache with the given name, if any.
pub open spec fn find_key(ts: Seq<(Seq<u8>, CacheView)>, name: Seq<u8>) -> Option<int>
    decreases ts.len(),
{
    if ts.len() == 0 {
        None
    } else if ts.first().0 == name {
        Some(0)
    } else {
        match find_key(ts.drop_first(), name) {
            Some(i) => Some(i + 1),
            None => None,
        }
    }
}

/// What the first matching index means.
pub proof fn lemma_find_key(ts: Seq<(Seq<u8>, CacheView)>, name: Seq<u8>)
    ensures
        find_key(ts, name) matches Some(i) ==> 0 <= i < ts.len() && ts[i].0 == name && forall|
            j: int,
        | 0 <= j < i ==> ts[j].0 != name,
        find_key(ts, name) is None ==> forall|j: int| 0 <= j < ts.len() ==> ts[j].0 != name,
    decreases ts.len(),
{
    if ts.len() > 0 && ts.first().0 != name {
        lemma_find_key(ts.drop_first(), name);
        match find_key(ts.drop_first(), name) {
            Some(i) => {
                assert forall|j: int| 0 <= j < i + 1 implies ts[j].0 != name by {
                    if j > 0 {
                        assert(ts.drop_first()[j - 1].0 != name);
                    }
                }
            },
            None => {
                assert forall|j: int| 0 <= j < ts.len() implies ts[j].0 != name by {
                    if j > 0 {
                        assert(ts.drop_first()[j - 1].0 != name);
                    }
                }
            },
        }
    }
}

/// A usable relative path: non-empty, with no empty segment, so neither
/// a leading nor a trailing separator nor two in a row.
pub open spec fn valid_path(p: Seq<u8>) -> bool {
    &&& p.len() > 0
    &&& p[0] != 47
    &&& p[p.len() - 1] != 47
    &&& forall|i: int| 0 <= i < p.len() - 1 ==> ((#[trigger] p[i]) != 47 || p[i + 1] != 47)
}

/// Whether the bytes form a usable relative path.
pub fn is_valid_path(p: &[u8]) -> (r: bool)
    ensures
        r == valid_path(p@),
{
    let n = p.len();
    if n == 0 {
        return false;
    }
    if p[0] == 47 {
        return false;
    }
    if p[n - 1] == 47 {
        return false;
    }
    let mut i: usize = 0;
    while i < n - 1
        invariant
            n == p@.len(),
            i <= n - 1,
            forall|j: int| 0 <= j < i ==> ((#[trigger] p@[j]) != 47 || p@[j + 1] != 47),
        decreases n - 1 - i,
    {
        if p[i] == 47 && p[i + 1] == 47 {
            return false;
        }
        i = i + 1;
    }
    true
}

/// Splitting a usable path at its first separator leaves a non-empty
/// base segment and a usable remainder.
proof fn lemma_valid_path_split(p: Seq<u8>, sp: int)
    requires
        valid_path(p),
        spec_find(p, 47u8) == Some(sp),
    ensures
        0 < sp < p.len() - 1,
        valid_path(p.subrange(sp + 1, p.len() as int)),
{
    lemma_spec_find(p, 47u8);
    let rest = p.subrange(sp + 1, p.len() as int);
    assert(p[sp] == 47);
    assert(rest[0] == p[sp + 1]);
    assert(rest[rest.len() - 1] == p[p.len() - 1]);
    assert forall|i: int| 0 <= i < rest.len() - 1 implies ((#[trigger] rest[i]) != 47 || rest[i + 1]
        != 47) by {
        assert(p[sp + 1 + i] != 47 || p[sp + 1 + i + 1] != 47);
    }
}

/// What routing one entry into a cache leaves: a name without a
/// separator joins this level's blobs; otherwise the entry moves into
/// the sub-cache named by the first segment, which is created at the end
/// of the list when it is new, with the remainder as its name there.
pub open spec fn spec_add_tree(c: CacheView, e: TreeEntryView) -> CacheView
    decreases e.name.len(),
{
    match spec_find(e.name, 47u8) {
        None => CacheView {
            blobs: c.blobs.push(
                TreeEntryView { key: e.key, mode: ObjectKind::Blob, name: e.name },
            ),
            trees: c.trees,
        },
        Some(sp) => {
            if !(0 <= sp < e.name.len()) {
                c
            } else {
                let base = e.name.subrange(0, sp);
                let rest = e.name.subrange(sp + 1, e.name.len() as int);
                let child = TreeEntryView { key: e.key, mode: e.mode, name: rest };
                match find_key(c.trees, base) {
                    Some(j) => CacheView {
                        blobs: c.blobs,
                        trees: c.trees.update(j, (base, spec_add_tree(c.trees[j].1, child))),
                    },
                    None => CacheView {
                        blobs: c.blobs,
                        trees: c.trees.push((base, spec_add_tree(empty_cache(), child))),
                    },
                }
            }
        },
    }
}

/// The tree child an index entry becomes when assembly routes it.
pub open spec fn entry_to_tree(e: crate::index::EntryView) -> TreeEntryView {
    TreeEntryView { key: e.key, mode: ObjectKind::Blob, name: e.name }
}

/// Whether every staged name is a usable relative path.
pub open spec fn paths_valid(es: Seq<crate::index::EntryView>) -> bool {
    forall|i: int| 0 <= i < es.len() ==> valid_path((#[trigger] es[i]).name)
}

/// Routing every entry into a cache, oldest first.
pub open spec fn build_cache(c: CacheView, es: Seq<crate::index::EntryView>) -> CacheView
    decreases es.len(),
{
    if es.len() == 0 {
        c
    } else {
        build_cache(spec_add_tree(c, entry_to_tree(es.first())), es.drop_first())
    }
}

/// Routing one more entry routes it into the cache built so far.
proof fn lemma_build_cache_push(
    c: CacheView,
    es: Seq<crate::index::EntryView>,
    e: crate::index::EntryView,
)
    ensures
        build_cache(c, es.push(e)) == spec_add_tree(build_cache(c, es), entry_to_tree(e)),
    decreases es.len(),
{
    if es.len() == 0 {
        assert(es.push(e).first() == e);
        assert(es.push(e).drop_first() =~= Seq::<crate::index::EntryView>::empty());
        assert(build_cache(c, es.push(e)) == build_cache(
            spec_add_tree(c, entry_to_tree(e)),
            es.push(e).drop_first(),
        ));
        assert(build_cache(c, es.push(e)) == spec_add_tree(c, entry_to_tree(e)));
        assert(build_cache(c, es) == c);
    } else {
        assert(es.push(e).first() == es.first());
        assert(es.push(e).drop_first() =~= es.drop_first().push(e));
        assert(build_cache(c, es.push(e)) == build_cache(
            spec_add_tree(c, entry_to_tree(es.first())),
            es.drop_first().push(e),
        ));
        lemma_build_cache_push(spec_add_tree(c, entry_to_tree(es.first())), es.drop_first(), e);
        assert(build_cache(c, es) == build_cache(
            spec_add_tree(c, entry_to_tree(es.first())),
            es.drop_first(),
        ));
    }
}

impl TreeCache {
    /// An empty cache level.
    pub fn new() -> (r: TreeCache)
        ensures
            r@ == empty_cache(),
    {
        let r = TreeCache { blobs: Vec::new(), trees: Vec::new() };
        assert(r@ =~= empty_cache());
        r
    }

    /// Adds a blob directly at this level.
    pub fn add_blob(&mut self, entry: TreeEntry)
        ensures
            final(self)@ == (CacheView {
                blobs: old(self)@.blobs.push(entry@),
                trees: old(self)@.trees,
            }),
    {
        self.blobs.push(entry);
        assert(self@ =~= (CacheView {
            blobs: old(self)@.blobs.push(entry@),
            trees: old(self)@.trees,
        }));
    }

    /// The position of the sub-cache with this name, creating an empty
    /// one at the end of the list when none exists yet.
    pub fn get_or_create_tree_mut(&mut self, tree_name: Vec<u8>) -> (idx: usize)
        ensures
            idx < final(self).trees@.len(),
            match find_key(old(self)@.trees, tree_name@) {
                Some(j) => idx == j && final(self)@ == old(self)@,
                None => idx == old(self).trees@.len() && final(self)@ == (CacheView {
                    blobs: old(self)@.blobs,
                    trees: old(self)@.trees.push((tree_name@, empty_cache())),
                }),
            },
            final(self).trees@[idx as int].0@ == tree_name@,
    {
        proof {
            lemma_find_key(self@.trees, tree_name@);
            lemma_trees_views(self.trees@);
        }
        let n = self.trees.len();
        let mut i: usize = 0;
        while i < n
            invariant
                n == self.trees@.len(),
                i <= n,
                forall|j: int| 0 <= j < i ==> self@.trees[j].0 != tree_name@,
            decreases n - i,
        {
            proof {
                lemma_trees_views(self.trees@);
            }
            if bytes_eq(self.trees[i].0.as_slice(), tree_name.as_slice()) {
                proof {
                    lemma_find_key(self@.trees, tree_name@);
                    assert(self@.trees[i as int].0 == tree_name@);
                }
                return i;
            }
            i = i + 1;
        }
        proof {
            lemma_trees_views(self.trees@);
            assert(find_key(self@.trees, tree_name@) is None);
        }
        let ghost tn = tree_name@;
        let fresh = TreeCache::new();
        self.trees.push((tree_name, fresh));
        proof {
            lemma_trees_views(self.trees@);
            lemma_trees_views(old(self).trees@);
            assert(self@.trees =~= old(self)@.trees.push((tn, empty_cache())));
            assert(self@ =~= (CacheView {
                blobs: old(self)@.blobs,
                trees: old(self)@.trees.push((tn, empty_cache())),
            }));
        }
        n
    }

    /// Builds the cache for a whole index: every entry is routed in, in
    /// index order, as a blob at the level its path names. An entry whose
    /// name is not a usable relative path is a format error.
    pub fn from_index(index: crate::index::Index) -> (r: Result<TreeCache, NitError>)
        ensures
            r matches Ok(c) ==> paths_valid(index@.entries) && c@ == build_cache(
                empty_cache(),
                index@.entries,
            ),
            r matches Err(e) ==> e == NitError::Format && !paths_valid(index@.entries),
    {
        let mut cache = TreeCache::new();
        let n = index.entries.len();
        let mut i: usize = 0;
        proof {
            assert(index@.entries.take(0) =~= Seq::<crate::index::EntryView>::empty());
        }
        while i < n
            invariant
                n == index.entries@.len() == index@.entries.len(),
                i <= n,
                forall|j: int| 0 <= j < i ==> valid_path((#[trigger] index@.entries[j]).name),
                cache@ == build_cache(empty_cache(), index@.entries.take(i as int)),
            decreases n - i,
        {
            let e = &index.entries[i];
            if !is_valid_path(e.name.as_slice()) {
                proof {
                    assert(!valid_path(index@.entries[i as int].name));
                }
                return Err(NitError::Format);
            }
            let name = vstd::slice::slice_to_vec(e.name.as_slice());
            cache.add_tree(TreeEntry { key: e.key, mode: ObjectKind::Blob, name });
            proof {
                lemma_build_cache_push(
                    empty_cache(),
                    index@.entries.take(i as int),
                    index@.entries[i as int],
                );
                assert(index@.entries.take(i + 1) =~= index@.entries.take(i as int).push(
                    index@.entries[i as int],
                ));
            }
            i = i + 1;
        }
        proof {
            assert(index@.entries.take(n as int) =~= index@.entries);
        }
        Ok(cache)
    }

    /// Routes one entry into the cache: names without a separator become
    /// blobs of this level, others descend into the sub-cache named by
    /// their first segment.
    pub fn add_tree(&mut self, entry: TreeEntry)
        requires
            valid_path(entry.name@),
        ensures
            final(self)@ == spec_add_tree(old(self)@, entry@),
        decreases entry.name@.len(),
    {
        let sp_opt = find_byte(entry.name.as_slice(), 47);
        proof {
            lemma_spec_find(entry.name@, 47u8);
        }
        match sp_opt {
            None => {
                let blob = TreeEntry { key: entry.key, mode: ObjectKind::Blob, name: entry.name };
                self.add_blob(blob);
            },
            Some(sp) => {
                proof {
                    lemma_valid_path_split(entry.name@, sp as int);
                }
                let nl = entry.name.len();
                let base = vstd::slice::slice_to_vec(
                    vstd::slice::slice_subrange(entry.name.as_slice(), 0, sp),
                );
                let rest = vstd::slice::slice_to_vec(
                    vstd::slice::slice_subrange(entry.name.as_slice(), sp + 1, nl),
                );
                let ghost base_s = entry.name@.subrange(0, sp as int);
                let ghost rest_s = entry.name@.subrange(sp + 1, entry.name@.len() as int);
                let ghost mid = old(self)@;
                let idx = self.get_or_create_tree_mut(base);
                let ghost created = self@;
                let ghost created_trees = self.trees@;
                let pair = self.trees.remove(idx);
                let (pname, mut pcache) = pair;
                let ghost child_before = pcache@;
                let ghost pname_s = pname@;
                pcache.add_tree(TreeEntry { key: entry.key, mode: entry.mode, name: rest });
                self.trees.insert(idx, (pname, pcache));
                proof {
                    let child_e = TreeEntryView { key: entry.key.0@, mode: entry.mode, name: rest_s };
                    lemma_trees_views(created_trees);
                    lemma_trees_views(self.trees@);
                    assert(self.trees@ =~= created_trees.update(idx as int, self.trees@[idx as int]));
                    assert(pname_s == base_s);
                    assert(self@.trees =~= created.trees.update(
                        idx as int,
                        (base_s, spec_add_tree(child_before, child_e)),
                    ));
                    match find_key(mid.trees, base_s) {
                        Some(j) => {
                            assert(self@ =~= spec_add_tree(mid, entry@));
                        },
                        None => {
                            lemma_trees_views(old(self).trees@);
                            assert(created.trees =~= mid.trees.push((base_s, empty_cache())));
                            assert(idx == mid.trees.len());
                            assert(created.trees[idx as int] == (base_s, empty_cache()));
                            assert(child_before == empty_cache());
                            assert(self@.trees =~= mid.trees.push(
                                (base_s, spec_add_tree(empty_cache(), child_e)),
                            ));
                            assert(self@ =~= spec_add_tree(mid, entry@));
                        },
                    }
                }
            },
        }
    }
}

/// Order on name-keyed records: by name, byte-wise; records with the
/// same name by their bytes, so that the order is total. A file and a
/// directory may share a name — assembly does not reject the collision,
/// as the flat index allows it — and then both records stand in the
/// payload, in this deterministic order.
pub open spec fn record_leq(x: (Seq<u8>, Seq<u8>), y: (Seq<u8>, Seq<u8>)) -> bool {
    if x.0 == y.0 {
        lex_leq(x.1, y.1)
    } else {
        lex_leq(x.0, y.0)
    }
}

/// The record order as a function value, for sorting.
pub open spec fn record_le() -> spec_fn((Seq<u8>, Seq<u8>), (Seq<u8>, Seq<u8>)) -> bool {
    |x: (Seq<u8>, Seq<u8>), y: (Seq<u8>, Seq<u8>)| record_leq(x, y)
}

/// Any two records are comparable.
proof fn lemma_record_leq_connect(x: (Seq<u8>, Seq<u8>), y: (Seq<u8>, Seq<u8>))
    ensures
        record_leq(x, y) || record_leq(y, x),
        (record_leq(x, y) && record_leq(y, x)) ==> x == y,
{
    lemma_lex_leq_total(x.0, y.0, x.0);
    lemma_lex_leq_total(x.1, y.1, x.1);
}

/// The record order is transitive.
proof fn lemma_record_leq_trans(x: (Seq<u8>, Seq<u8>), y: (Seq<u8>, Seq<u8>), z: (Seq<u8>, Seq<u8>))
    requires
        record_leq(x, y),
        record_leq(y, z),
    ensures
        record_leq(x, z),
{
    lemma_lex_leq_total(x.0, y.0, z.0);
    lemma_lex_leq_total(x.1, y.1, z.1);
    lemma_lex_leq_total(y.0, x.0, z.0);
}

/// The record order is a total ordering.
pub proof fn lemma_record_le_total()
    ensures
        vstd::relations::total_ordering(record_le()),
{
    let leq = record_le();
    assert(vstd::relations::reflexive(leq)) by {
        assert forall|x: (Seq<u8>, Seq<u8>)| #[trigger] leq(x, x) by {
            lemma_record_leq_connect(x, x);
        }
    }
    assert(vstd::relations::antisymmetric(leq)) by {
        assert forall|x: (Seq<u8>, Seq<u8>), y: (Seq<u8>, Seq<u8>)|
            #[trigger] leq(x, y) && #[trigger] leq(y, x) implies x == y by {
            lemma_record_leq_connect(x, y);
        }
    }
    assert(vstd::relations::transitive(leq)) by {
        assert forall|x: (Seq<u8>, Seq<u8>), y: (Seq<u8>, Seq<u8>), z: (Seq<u8>, Seq<u8>)|
            #[trigger] leq(x, y) && #[trigger] leq(y, z) implies leq(x, z) by {
            lemma_record_leq_trans(x, y, z);
        }
    }
    assert(vstd::relations::strongly_connected(leq)) by {
        assert forall|x: (Seq<u8>, Seq<u8>), y: (Seq<u8>, Seq<u8>)|
            #[trigger] leq(x, y) || #[trigger] leq(y, x) by {
            lemma_record_leq_connect(x, y);
        }
    }
}

/// The records of one level's sub-trees, in list order: each pairs the
/// sub-tree's name with its tree-mode record, whose hash is the
/// sub-tree's own root hash.
pub open spec fn child_records(ts: Seq<(Seq<u8>, CacheView)>) -> Seq<(Seq<u8>, Seq<u8>)>
    decreases ts, 0int,
{
    if ts.len() == 0 {
        Seq::empty()
    } else {
        seq![
            (
                ts.first().0,
                tree_record(ObjectKind::Tree, ts.first().0, cache_hash(ts.first().1)),
            ),
        ] + child_records(ts.drop_first())
    }
}

/// The records of a run of sub-trees, element by element.
pub proof fn lemma_child_records_elems(ts: Seq<(Seq<u8>, CacheView)>)
    ensures
        child_records(ts).len() == ts.len(),
        forall|i: int|
            0 <= i < ts.len() ==> child_records(ts)[i] == (
                ts[i].0,
                tree_record(ObjectKind::Tree, ts[i].0, cache_hash(ts[i].1)),
            ),
    decreases ts,
{
    if ts.len() > 0 {
        lemma_child_records_elems(ts.drop_first());
        assert forall|i: int|
            0 <= i < ts.len() implies child_records(ts)[i] == (
            ts[i].0,
            tree_record(ObjectKind::Tree, ts[i].0, cache_hash(ts[i].1)),
        ) by {
            if i > 0 {
                assert(child_records(ts.drop_first())[i - 1] == (
                    ts.drop_first()[i - 1].0,
                    tree_record(
                        ObjectKind::Tree,
                        ts.drop_first()[i - 1].0,
                        cache_hash(ts.drop_first()[i - 1].1),
                    ),
                ));
            }
        }
    }
}

/// The records of one level's direct blobs, in list order.
pub open spec fn blob_records(c: CacheView) -> Seq<(Seq<u8>, Seq<u8>)> {
    Seq::new(
        c.blobs.len(),
        |i: int| (c.blobs[i].name, tree_record(c.blobs[i].mode, c.blobs[i].name, c.blobs[i].key)),
    )
}

/// All records of one level before sorting: blobs, then sub-trees.
pub open spec fn cache_records(c: CacheView) -> Seq<(Seq<u8>, Seq<u8>)>
    decreases c, 1int,
{
    blob_records(c) + child_records(c.trees)
}

/// The bytes of a run of records, in order.
pub open spec fn concat_records(rs: Seq<(Seq<u8>, Seq<u8>)>) -> Seq<u8>
    decreases rs.len(),
{
    if rs.len() == 0 {
        Seq::empty()
    } else {
        rs.first().1 + concat_records(rs.drop_first())
    }
}

/// Appending a record appends its bytes.
proof fn lemma_concat_records_push(rs: Seq<(Seq<u8>, Seq<u8>)>, r: (Seq<u8>, Seq<u8>))
    ensures
        concat_records(rs.push(r)) == concat_records(rs) + r.1,
    decreases rs.len(),
{
    if rs.len() == 0 {
        assert(rs.push(r).first() == r);
        assert(rs.push(r).drop_first() =~= Seq::<(Seq<u8>, Seq<u8>)>::empty());
        assert(concat_records(rs.push(r)) == r.1 + concat_records(
            Seq::<(Seq<u8>, Seq<u8>)>::empty(),
        ));
        assert(r.1 + Seq::<u8>::empty() =~= Seq::<u8>::empty() + r.1);
    } else {
        assert(rs.push(r).first() == rs.first());
        assert(rs.push(r).drop_first() =~= rs.drop_first().push(r));
        lemma_concat_records_push(rs.drop_first(), r);
        assert(concat_records(rs.push(r)) == rs.first().1 + (concat_records(rs.drop_first())
            + r.1));
        assert(rs.first().1 + (concat_records(rs.drop_first()) + r.1) =~= (rs.first().1
            + concat_records(rs.drop_first())) + r.1);
    }
}

/// The payload of one level's tree object: its records sorted by the
/// record order, concatenated.
pub open spec fn cache_payload(c: CacheView) -> Seq<u8>
    decreases c, 2int,
{
    concat_records(cache_records(c).sort_by(record_le()))
}

/// The root hash a cache level persists to: the hash of its tree object.
pub open spec fn cache_hash(c: CacheView) -> Seq<u8>
    decreases c, 3int,
{
    object_hash(ObjectKind::Tree, cache_payload(c))
}

/// What persisting a cache leaves in a store: every sub-tree persisted
/// first, in list order, then this level's own tree object written.
pub open spec fn spec_persist(sv: Seq<(Seq<u8>, Seq<u8>)>, c: CacheView) -> Seq<(Seq<u8>, Seq<u8>)>
    decreases c, 4int,
{
    spec_store_write(persist_children(sv, c.trees), ObjectKind::Tree, cache_payload(c))
}

/// Persisting a run of sub-trees, oldest first.
pub open spec fn persist_children(
    sv: Seq<(Seq<u8>, Seq<u8>)>,
    ts: Seq<(Seq<u8>, CacheView)>,
) -> Seq<(Seq<u8>, Seq<u8>)>
    decreases ts, 5int,
{
    if ts.len() == 0 {
        sv
    } else {
        persist_children(spec_persist(sv, ts.first().1), ts.drop_first())
    }
}

/// Persisting one more sub-tree persists it into the store so far.
proof fn lemma_persist_children_push(
    sv: Seq<(Seq<u8>, Seq<u8>)>,
    ts: Seq<(Seq<u8>, CacheView)>,
    t: (Seq<u8>, CacheView),
)
    ensures
        persist_children(sv, ts.push(t)) == spec_persist(persist_children(sv, ts), t.1),
    decreases ts.len(),
{
    if ts.len() == 0 {
        assert(ts.push(t).first() == t);
        assert(ts.push(t).drop_first() =~= Seq::<(Seq<u8>, CacheView)>::empty());
        assert(persist_children(sv, ts.push(t)) == persist_children(
            spec_persist(sv, t.1),
            ts.push(t).drop_first(),
        ));
    } else {
        assert(ts.push(t).first() == ts.first());
        assert(ts.push(t).drop_first() =~= ts.drop_first().push(t));
        assert(persist_children(sv, ts.push(t)) == persist_children(
            spec_persist(sv, ts.first().1),
            ts.drop_first().push(t),
        ));
        lemma_persist_children_push(spec_persist(sv, ts.first().1), ts.drop_first(), t);
        assert(persist_children(sv, ts) == persist_children(
            spec_persist(sv, ts.first().1),
            ts.drop_first(),
        ));
    }
}

/// The values of a run of owned records.
pub open spec fn records_view(rs: Seq<(Vec<u8>, Vec<u8>)>) -> Seq<(Seq<u8>, Seq<u8>)> {
    Seq::new(rs.len(), |i: int| (rs[i].0@, rs[i].1@))
}

/// Whether `x` comes no later than `y` in the record order.
fn rec_leq(x: &(Vec<u8>, Vec<u8>), y: &(Vec<u8>, Vec<u8>)) -> (r: bool)
    ensures
        r == record_leq((x.0@, x.1@), (y.0@, y.1@)),
{
    if bytes_eq(x.0.as_slice(), y.0.as_slice()) {
        bytes_leq(x.1.as_slice(), y.1.as_slice())
    } else {
        bytes_leq(x.0.as_slice(), y.0.as_slice())
    }
}

/// Sorts records by the record order. The result is the one sorted
/// arrangement of the same records.
fn sorted_records(v: Vec<(Vec<u8>, Vec<u8>)>) -> (out: Vec<(Vec<u8>, Vec<u8>)>)
    ensures
        vstd::relations::sorted_by(records_view(out@), record_le()),
        records_view(out@).to_multiset() == records_view(v@).to_multiset(),
{
    broadcast use vstd::seq_lib::group_to_multiset_ensures;

    let ghost orig = records_view(v@);
    let mut v = v;
    let mut out: Vec<(Vec<u8>, Vec<u8>)> = Vec::new();
    proof {
        assert(records_view(out@).to_multiset().add(records_view(v@).to_multiset())
            =~= orig.to_multiset());
    }
    while v.len() > 0
        invariant
            records_view(out@).to_multiset().add(records_view(v@).to_multiset())
                == orig.to_multiset(),
            vstd::relations::sorted_by(records_view(out@), record_le()),
            forall|a: int, b: int|
                0 <= a < out@.len() && 0 <= b < v@.len() ==> record_leq(
                    #[trigger] records_view(out@)[a],
                    #[trigger] records_view(v@)[b],
                ),
        decreases v@.len(),
    {
        let n = v.len();
        let mut m: usize = 0;
        let mut j: usize = 1;
        proof {
            lemma_record_leq_connect(records_view(v@)[0], records_view(v@)[0]);
        }
        while j < n
            invariant
                1 <= j <= n == v@.len(),
                m < j,
                forall|k: int|
                    0 <= k < j ==> record_leq(
                        records_view(v@)[m as int],
                        #[trigger] records_view(v@)[k],
                    ),
            decreases n - j,
        {
            if !rec_leq(&v[m], &v[j]) {
                proof {
                    lemma_record_leq_connect(records_view(v@)[m as int], records_view(v@)[j as int]);
                    assert forall|k: int|
                        0 <= k < j + 1 implies record_leq(
                        records_view(v@)[j as int],
                        #[trigger] records_view(v@)[k],
                    ) by {
                        if k < j {
                            lemma_record_leq_trans(
                                records_view(v@)[j as int],
                                records_view(v@)[m as int],
                                records_view(v@)[k],
                            );
                        } else {
                            lemma_record_leq_connect(
                                records_view(v@)[j as int],
                                records_view(v@)[j as int],
                            );
                        }
                    }
                }
                m = j;
            }
            j = j + 1;
        }
        let ghost vv = records_view(v@);
        let ghost ov = records_view(out@);
        let x = v.remove(m);
        let ghost xv = (x.0@, x.1@);
        out.push(x);
        proof {
            assert(xv == vv[m as int]);
            assert(records_view(v@) =~= vv.remove(m as int));
            assert(records_view(out@) =~= ov.push(xv));
            assert(vv.remove(m as int).to_multiset() =~= vv.to_multiset().remove(xv));
            assert(ov.push(xv).to_multiset() =~= ov.to_multiset().insert(xv));
            assert(vv.to_multiset().contains(xv));
            assert(ov.to_multiset().insert(xv).add(vv.to_multiset().remove(xv)) =~= ov.to_multiset(
            ).add(vv.to_multiset()));
            assert forall|a: int, b: int|
                0 <= a < records_view(out@).len() && 0 <= b < records_view(v@).len()
                    implies record_leq(
                #[trigger] records_view(out@)[a],
                #[trigger] records_view(v@)[b],
            ) by {
                let bb = if b < m { b } else { b + 1 };
                assert(records_view(v@)[b] == vv[bb]);
                if a < ov.len() {
                    assert(record_leq(ov[a], vv[bb]));
                } else {
                    assert(records_view(out@)[a] == xv);
                    assert(record_leq(vv[m as int], vv[bb]));
                }
            }
            assert forall|a: int, b: int|
                0 <= a < b < records_view(out@).len() implies record_le()(
                #[trigger] records_view(out@)[a],
                #[trigger] records_view(out@)[b],
            ) by {
                if b < ov.len() {
                    assert(record_le()(ov[a], ov[b]));
                } else {
                    assert(records_view(out@)[b] == xv);
                    assert(record_leq(ov[a], vv[m as int]));
                }
            }
        }
    }
    proof {
        assert(records_view(v@).to_multiset() =~= vstd::multiset::Multiset::<(Seq<u8>, Seq<u8>)>::empty());
        assert(records_view(out@).to_multiset().add(vstd::multiset::Multiset::<(Seq<u8>, Seq<u8>)>::empty())
            =~= records_view(out@).to_multiset());
    }
    out
}

/// One level's sorted records are determined by which records there are:
/// however insertion order arranged them, sorting puts the same records
/// in the same places, so the serialized payload is identical.
pub proof fn lemma_payload_order_free(a: Seq<(Seq<u8>, Seq<u8>)>, b: Seq<(Seq<u8>, Seq<u8>)>)
    requires
        a.to_multiset() == b.to_multiset(),
    ensures
        a.sort_by(record_le()) == b.sort_by(record_le()),
        concat_records(a.sort_by(record_le())) == concat_records(b.sort_by(record_le())),
{
    lemma_record_le_total();
    a.lemma_sort_by_ensures(record_le());
    b.lemma_sort_by_ensures(record_le());
    vstd::seq_lib::lemma_sorted_unique(a.sort_by(record_le()), b.sort_by(record_le()), record_le());
}

/// Persists a cache bottom-up: every sub-tree's object is written before
/// the tree that names it, and the returned hash is the root tree's.
/// Always succeeds, since writing into the in-memory store cannot fail.
pub fn write_cache(cache: &TreeCache, store: &mut ObjectStore) -> (r: Result<
    crate::hash::Hash,
    NitError,
>)
    ensures
        r is Ok,
        r matches Ok(h) ==> h.0@ == cache_hash(cache@) && final(store)@ == spec_persist(
            old(store)@,
            cache@,
        ),
    decreases *cache,
{
    broadcast use vstd::seq_lib::group_to_multiset_ensures;

    let mut records: Vec<(Vec<u8>, Vec<u8>)> = Vec::new();
    let nb = cache.blobs.len();
    let mut i: usize = 0;
    proof {
        assert(records_view(records@) =~= blob_records(cache@).take(0));
    }
    while i < nb
        invariant
            nb == cache.blobs@.len(),
            records_view(records@) == blob_records(cache@).take(i as int),
            i <= nb,
        decreases nb - i,
    {
        proof {
            assert(records_view(records@).len() == records@.len());
            assert(blob_records(cache@).len() == cache@.blobs.len());
            assert(cache@.blobs.len() == nb);
            assert(blob_records(cache@).take(i as int).len() == i);
            assert(records@.len() == i);
        }
        let b = &cache.blobs[i];
        let name = vstd::slice::slice_to_vec(b.name.as_slice());
        let rec = b.as_bytes();
        let ghost rbefore = records@;
        records.push((name, rec));
        proof {
            assert(records@ == rbefore.push(records@[i as int]));
            assert(cache@.blobs == tree_entry_views(cache.blobs@));
            assert(cache@.blobs.len() == nb);
            assert(cache@.blobs[i as int] == b@);
            assert(records_view(records@).len() == i + 1);
            assert(blob_records(cache@).take(i + 1).len() == i + 1);
            assert(records_view(records@)[i as int] == blob_records(cache@)[i as int]);
            assert(records_view(records@) =~= blob_records(cache@).take(i + 1));
        }
        i = i + 1;
    }
    proof {
        assert(blob_records(cache@).take(nb as int) =~= blob_records(cache@));
        assert(cache@.trees.take(0) =~= Seq::<(Seq<u8>, CacheView)>::empty());
        assert(child_records(cache@.trees.take(0)) =~= Seq::<(Seq<u8>, Seq<u8>)>::empty());
        assert(records_view(records@) =~= blob_records(cache@) + child_records(
            cache@.trees.take(0),
        ));
    }
    let nt = cache.trees.len();
    let mut i: usize = 0;
    while i < nt
        invariant
            nt == cache.trees@.len(),
            i <= nt,
            records_view(records@) == blob_records(cache@) + child_records(cache@.trees.take(
                i as int,
            )),
            store@ == persist_children(old(store)@, cache@.trees.take(i as int)),
        decreases nt - i,
    {
        proof {
            lemma_trees_views(cache.trees@);
        }
        let child_hash = write_cache(&cache.trees[i].1, store).unwrap();
        let dir = vstd::slice::slice_to_vec(cache.trees[i].0.as_slice());
        let mut rec: Vec<u8> = Vec::new();
        ObjectKind::Tree.push_mode_text(&mut rec);
        rec.push(32);
        push_bytes(&mut rec, dir.as_slice());
        rec.push(0);
        push_bytes(&mut rec, child_hash.0.as_slice());
        let ghost rbefore = records@;
        records.push((dir, rec));
        proof {
            let ts = cache@.trees;
            lemma_trees_views(cache.trees@);
            lemma_child_records_elems(ts.take(i as int));
            assert(records_view(rbefore).len() == rbefore.len());
            assert(records_view(rbefore) == blob_records(cache@) + child_records(ts.take(i as int)));
            assert(rbefore.len() == cache@.blobs.len() + i);
            assert(records@.len() == rbefore.len() + 1);
            assert(ts.len() == nt);
            assert(ts[i as int] == (cache.trees@[i as int].0@, cache_view(cache.trees@[i as int].1)));
            assert(rec@ =~= tree_record(ObjectKind::Tree, ts[i as int].0, cache_hash(
                ts[i as int].1,
            )));
            assert(ts.take(i + 1) =~= ts.take(i as int).push(ts[i as int]));
            lemma_child_records_elems(ts.take(i as int));
            lemma_child_records_elems(ts.take(i + 1));
            let lhs = records_view(records@);
            let rhs = blob_records(cache@) + child_records(ts.take(i + 1));
            assert(child_records(ts.take(i as int)).len() == i);
            assert(child_records(ts.take(i + 1)).len() == i + 1);
            assert(lhs.len() == rhs.len());
            assert forall|l: int| 0 <= l < lhs.len() implies lhs[l] == rhs[l] by {
                let prev = blob_records(cache@) + child_records(ts.take(i as int));
                if l < prev.len() {
                    assert(lhs[l] == prev[l]);
                    if l >= blob_records(cache@).len() {
                        assert(child_records(ts.take(i as int))[l - blob_records(cache@).len()]
                            == child_records(ts.take(i + 1))[l - blob_records(cache@).len()]);
                    }
                } else {
                    assert(lhs[l] == (dir@, rec@));
                    assert(rhs[l] == child_records(ts.take(i + 1))[i as int]);
                }
            }
            assert(lhs =~= rhs);
            lemma_persist_children_push(old(store)@, ts.take(i as int), ts[i as int]);
        }
        i = i + 1;
    }
    proof {
        lemma_trees_views(cache.trees@);
        assert(cache@.trees.take(nt as int) =~= cache@.trees);
        assert(records_view(records@) == cache_records(cache@));
    }
    let sorted = sorted_records(records);
    proof {
        lemma_record_le_total();
        cache_records(cache@).lemma_sort_by_ensures(record_le());
        vstd::seq_lib::lemma_sorted_unique(
            records_view(sorted@),
            cache_records(cache@).sort_by(record_le()),
            record_le(),
        );
    }
    let mut payload: Vec<u8> = Vec::new();
    let ns = sorted.len();
    let mut k: usize = 0;
    proof {
        assert(payload@ =~= concat_records(records_view(sorted@).take(0)));
    }
    while k < ns
        invariant
            ns == sorted@.len(),
            k <= ns,
            payload@ == concat_records(records_view(sorted@).take(k as int)),
        decreases ns - k,
    {
        push_bytes(&mut payload, sorted[k].1.as_slice());
        proof {
            let sv = records_view(sorted@);
            lemma_concat_records_push(sv.take(k as int), sv[k as int]);
            assert(sv.take(k + 1) =~= sv.take(k as int).push(sv[k as int]));
        }
        k = k + 1;
    }
    proof {
        assert(records_view(sorted@).take(ns as int) =~= records_view(sorted@));
        assert(payload@ == cache_payload(cache@));
    }
    let h = store.write(ObjectKind::Tree, payload.as_slice()).unwrap();
    proof {
        assert(store@ == spec_persist(old(store)@, cache@));
    }
    Ok(h)
}

} // verus!
