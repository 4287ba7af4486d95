//! Commit objects: the tree they snapshot, an optional parent, author
//! and committer stamps, and a message, rendered as the text that is
//! framed and hashed, and read back from that text.

use vstd::prelude::*;
use vstd::utf8::valid_utf8;
use crate::error::NitError;
use crate::object::ObjectKind;
use crate::store::{spec_store_write, ObjectStore};
use crate::util::{
    check_utf8, dec_bytes, find_byte, find_pair, lemma_spec_find, lemma_spec_find2,
    parse_u32_bytes, parse_u32_spec, push_bytes, push_dec, spec_find, spec_find2,
};
use crate::hash::{hex_bytes, hex_bytes_value, is_hex40_bytes};

verus! {

/// Who and when: a name, an email address, and a timestamp in seconds.
#[derive(Debug, Clone, PartialEq, Eq)]
pub struct Stamp {
    pub name: Vec<u8>,
    pub email: Vec<u8>,
    pub timestamp: u32,
}

/// The mathematical value of a stamp.
#[verifier::ext_equal]
pub struct StampView {
    pub name: Seq<u8>,
    pub email: Seq<u8>,
    pub timestamp: u32,
}

impl View for Stamp {
    type V = StampView;

    open spec fn view(&self) -> StampView {
        StampView { name: self.name@, email: self.email@, timestamp: self.timestamp }
    }
}

/// A commit: the root tree, an optional parent commit, the author and
/// committer stamps, and the message.
#[derive(Debug, Clone, PartialEq, Eq)]
pub struct Commit {
    pub tree: crate::hash::Hash,
    pub parent: Option<crate::hash::Hash>,
    pub author: Stamp,
    pub committer: Stamp,
    pub message: Vec<u8>,
}

/// The mathematical value of a commit.
#[verifier::ext_equal]
pub struct CommitView {
    pub tree: Seq<u8>,
    pub parent: Option<Seq<u8>>,
    pub author: StampView,
    pub committer: StampView,
    pub message: Seq<u8>,
}

impl View for Commit {
    type V = CommitView;

    open spec fn view(&self) -> CommitView {
        CommitView {
            tree: self.tree.0@,
            parent: match self.parent {
                Some(p) => Some(p.0@),
                None => None,
            },
            author: self.author@,
            committer: self.committer@,
            message: self.message@,
        }
    }
}

/// The text of a stamp: name, the email in angle brackets, the decimal
/// timestamp, and the fixed `+0100` zone.
pub open spec fn stamp_text(s: StampView) -> Seq<u8> {
    s.name + seq![32u8, 60u8] + s.email + seq![62u8, 32u8] + dec_bytes(s.timestamp as nat) + seq![
        32u8,
        43u8,
        48u8,
        49u8,
        48u8,
        48u8,
    ]
}

/// The text of a commit: the tree line, a parent line when there is a
/// parent, the author and committer lines, a blank line, and the message
/// with a final newline.
pub open spec fn commit_text(c: CommitView) -> Seq<u8> {
    seq![116u8, 114u8, 101u8, 101u8, 32u8] + hex_bytes(c.tree) + seq![10u8] + (match c.parent {
        Some(p) => seq![112u8, 97u8, 114u8, 101u8, 110u8, 116u8, 32u8] + hex_bytes(p) + seq![10u8],
        None => Seq::<u8>::empty(),
    }) + seq![97u8, 117u8, 116u8, 104u8, 111u8, 114u8, 32u8] + stamp_text(c.author) + seq![10u8]
        + seq![99u8, 111u8, 109u8, 109u8, 105u8, 116u8, 116u8, 101u8, 114u8, 32u8] + stamp_text(
        c.committer,
    ) + seq![10u8] + seq![10u8] + c.message + seq![10u8]
}

/// The byte runs between newlines, as the line reader yields them: an
/// empty text has no lines, and a trailing newline closes the last line
/// rather than opening an empty one.
pub open spec fn lines_of(s: Seq<u8>) -> Seq<Seq<u8>>
    decreases s.len(),
    via lines_of_decreases
{
    if s.len() == 0 {
        Seq::empty()
    } else {
        match spec_find(s, 10u8) {
            None => seq![s],
            Some(p) => seq![s.subrange(0, p)] + lines_of(s.skip(p + 1)),
        }
    }
}

#[via_fn]
proof fn lines_of_decreases(s: Seq<u8>) {
    lemma_spec_find(s, 10u8);
}

/// The views of a run of owned lines.
pub open spec fn line_views(ls: Seq<Vec<u8>>) -> Seq<Seq<u8>> {
    Seq::new(ls.len(), |i: int| ls[i]@)
}

/// Lines joined with single newlines, with nothing around them.
pub open spec fn join_lines(ls: Seq<Seq<u8>>) -> Seq<u8>
    decreases ls.len(),
{
    if ls.len() == 0 {
        Seq::empty()
    } else if ls.len() == 1 {
        ls[0]
    } else {
        ls[0] + seq![10u8] + join_lines(ls.drop_first())
    }
}

/// One more line joins after a newline, except onto nothing.
proof fn lemma_join_lines_push(ls: Seq<Seq<u8>>, l: Seq<u8>)
    ensures
        join_lines(ls.push(l)) == if ls.len() == 0 {
            l
        } else {
            join_lines(ls) + seq![10u8] + l
        },
    decreases ls.len(),
{
    if ls.len() == 0 {
        assert(ls.push(l)[0] == l);
    } else if ls.len() == 1 {
        assert(ls.push(l)[0] == ls[0]);
        assert(ls.push(l).drop_first() =~= seq![l]);
        assert(join_lines(seq![l]) == l);
    } else {
        assert(ls.push(l)[0] == ls[0]);
        assert(ls.push(l).drop_first() =~= ls.drop_first().push(l));
        lemma_join_lines_push(ls.drop_first(), l);
        assert(ls[0] + seq![10u8] + (join_lines(ls.drop_first()) + seq![10u8] + l) =~= (ls[0]
            + seq![10u8] + join_lines(ls.drop_first())) + seq![10u8] + l);
    }
}

/// The word `parent` and a space, which opens a parent line.
pub open spec fn parent_word() -> Seq<u8> {
    seq![112u8, 97u8, 114u8, 101u8, 110u8, 116u8, 32u8]
}

/// Whether the line opens with the parent word.
pub open spec fn has_parent_word(l: Seq<u8>) -> bool {
    l.len() >= 7 && l.subrange(0, 7) == parent_word()
}

/// Forty hex digits read at an offset in a line, or nothing when the
/// line is too short or a digit is not hex.
pub open spec fn parse_hex_at(l: Seq<u8>, start: int) -> Option<Seq<u8>> {
    if l.len() < start + 40 {
        None
    } else {
        let h = l.subrange(start, start + 40);
        if is_hex40_bytes(h) {
            Some(hex_bytes_value(h))
        } else {
            None
        }
    }
}

/// A stamp read back from its text: the name up to the first ` <`, the
/// email up to the following `> `, and the number up to the next space,
/// which must parse as seconds.
pub open spec fn parse_stamp(s: Seq<u8>) -> Option<StampView> {
    match spec_find2(s, 32u8, 60u8) {
        None => None,
        Some(i) => {
            let name = s.subrange(0, i);
            let r1 = s.skip(i + 2);
            match spec_find2(r1, 62u8, 32u8) {
                None => None,
                Some(j) => {
                    let email = r1.subrange(0, j);
                    let r2 = r1.skip(j + 2);
                    match spec_find(r2, 32u8) {
                        None => None,
                        Some(k) => {
                            match parse_u32_spec(r2.subrange(0, k)) {
                                None => None,
                                Some(ts) => Some(
                                    StampView { name, email, timestamp: ts },
                                ),
                            }
                        },
                    }
                },
            }
        },
    }
}

/// A commit read back from its framed text. The frame header runs to the
/// first NUL; the rest must be valid UTF-8 and hold a tree line, an
/// optional parent line, author and committer lines, and a separating
/// line before the message. Anything malformed reads as nothing.
pub open spec fn parse_commit(bytes: Seq<u8>) -> Option<CommitView> {
    let rest = match spec_find(bytes, 0u8) {
        Some(p) => bytes.skip(p + 1),
        None => bytes,
    };
    if !valid_utf8(rest) {
        None
    } else {
        let ls = lines_of(rest);
        if ls.len() < 2 {
            None
        } else {
            match parse_hex_at(ls[0], 5) {
                None => None,
                Some(tree) => {
                    let has_parent = has_parent_word(ls[1]);
                    let ai: int = if has_parent {
                        2
                    } else {
                        1
                    };
                    let parent = if has_parent {
                        parse_hex_at(ls[1], 7)
                    } else {
                        None
                    };
                    if has_parent && parent is None {
                        None
                    } else if ls.len() < ai + 3 {
                        None
                    } else if ls[ai].len() < 7 {
                        None
                    } else {
                        match parse_stamp(ls[ai].skip(7)) {
                            None => None,
                            Some(author) => {
                                if ls[ai + 1].len() < 10 {
                                    None
                                } else {
                                    match parse_stamp(ls[ai + 1].skip(10)) {
                                        None => None,
                                        Some(committer) => Some(
                                            CommitView {
                                                tree,
                                                parent,
                                                author,
                                                committer,
                                                message: join_lines(ls.skip(ai + 3)) + seq![10u8],
                                            },
                                        ),
                                    }
                                }
                            },
                        }
                    }
                },
            }
        }
    }
}

/// Splits a text into its lines.
fn split_lines(bytes: &[u8]) -> (r: Vec<Vec<u8>>)
    ensures
        line_views(r@) == lines_of(bytes@),
{
    let len = bytes.len();
    let mut acc: Vec<Vec<u8>> = Vec::new();
    let mut pos: usize = 0;
    proof {
        assert(bytes@.skip(0) =~= bytes@);
        assert(line_views(acc@) + lines_of(bytes@) =~= lines_of(bytes@));
    }
    while pos < len
        invariant
            pos <= len == bytes@.len(),
            lines_of(bytes@) == line_views(acc@) + lines_of(bytes@.skip(pos as int)),
        decreases len - pos,
    {
        let ghost suffix = bytes@.skip(pos as int);
        let ghost old_acc = acc@;
        let tail = vstd::slice::slice_subrange(bytes, pos, len);
        proof {
            assert(tail@ =~= suffix);
            lemma_spec_find(tail@, 10u8);
        }
        match find_byte(tail, 10) {
            Some(p) => {
                let line = vstd::slice::slice_to_vec(vstd::slice::slice_subrange(tail, 0, p));
                acc.push(line);
                proof {
                    assert(line_views(acc@) =~= line_views(old_acc).push(suffix.subrange(
                        0,
                        p as int,
                    )));
                    assert(suffix.skip(p + 1) =~= bytes@.skip(pos + p + 1));
                    assert(lines_of(suffix) == seq![suffix.subrange(0, p as int)] + lines_of(
                        bytes@.skip(pos + p + 1),
                    ));
                    assert(line_views(old_acc) + (seq![suffix.subrange(0, p as int)] + lines_of(
                        bytes@.skip(pos + p + 1),
                    )) =~= line_views(acc@) + lines_of(bytes@.skip(pos + p + 1)));
                }
                pos = pos + p + 1;
            },
            None => {
                let line = vstd::slice::slice_to_vec(tail);
                acc.push(line);
                proof {
                    assert(line_views(acc@) =~= line_views(old_acc).push(suffix));
                    assert(lines_of(suffix) == seq![suffix]);
                    assert(bytes@.skip(len as int).len() == 0);
                    assert(line_views(old_acc) + seq![suffix] =~= line_views(acc@) + lines_of(
                        bytes@.skip(len as int),
                    ));
                }
                pos = len;
            },
        }
    }
    proof {
        assert(lines_of(bytes@.skip(pos as int)) =~= Seq::<Seq<u8>>::empty());
        assert(line_views(acc@) + Seq::<Seq<u8>>::empty() =~= line_views(acc@));
    }
    acc
}

/// Whether the line opens with the parent word.
fn is_parent_line(l: &[u8]) -> (r: bool)
    ensures
        r == has_parent_word(l@),
{
    if l.len() < 7 {
        return false;
    }
    let r = l[0] == 112 && l[1] == 97 && l[2] == 114 && l[3] == 101 && l[4] == 110 && l[5] == 116
        && l[6] == 32;
    proof {
        if r {
            assert(l@.subrange(0, 7) =~= parent_word());
        } else {
            assert(l@.subrange(0, 7) != parent_word());
        }
    }
    r
}

/// Reads forty hex digits at an offset in a line.
fn hex_at(l: &[u8], start: usize) -> (r: Option<crate::hash::Hash>)
    ensures
        r matches Some(h) ==> parse_hex_at(l@, start as int) == Some(h.0@),
        r is None ==> parse_hex_at(l@, start as int) is None,
{
    let len = l.len();
    if len < 40 || len - 40 < start {
        return None;
    }
    let part = vstd::slice::slice_subrange(l, start, start + 40);
    crate::hash::Hash::from_hex_bytes(part)
}

impl Stamp {
    /// Renders the stamp's text.
    pub fn to_bytes(&self) -> (r: Vec<u8>)
        ensures
            r@ == stamp_text(self@),
    {
        let mut out: Vec<u8> = Vec::new();
        push_bytes(&mut out, self.name.as_slice());
        out.push(32);
        out.push(60);
        push_bytes(&mut out, self.email.as_slice());
        out.push(62);
        out.push(32);
        push_dec(&mut out, self.timestamp as usize);
        out.push(32);
        out.push(43);
        out.push(48);
        out.push(49);
        out.push(48);
        out.push(48);
        assert(out@ =~= stamp_text(self@));
        out
    }
}

impl Commit {
    /// Gathers the parts of a commit.
    pub fn create(
        tree: crate::hash::Hash,
        parent: Option<crate::hash::Hash>,
        author: Stamp,
        committer: Stamp,
        message: Vec<u8>,
    ) -> (r: Commit)
        ensures
            r.tree == tree,
            r.parent == parent,
            r.author == author,
            r.committer == committer,
            r.message == message,
    {
        Commit { tree, parent, author, committer, message }
    }

    /// Renders the commit's text.
    #[verifier::rlimit(100)]
    pub fn to_bytes(&self) -> (r: Vec<u8>)
        ensures
            r@ == commit_text(self@),
    {
        let mut out: Vec<u8> = Vec::new();
        out.push(116);
        out.push(114);
        out.push(101);
        out.push(101);
        out.push(32);
        let tree_hex = crate::hash::hex_of_bytes(self.tree.0.as_slice());
        push_bytes(&mut out, tree_hex.as_slice());
        out.push(10);
        match &self.parent {
            Some(p) => {
                out.push(112);
                out.push(97);
                out.push(114);
                out.push(101);
                out.push(110);
                out.push(116);
                out.push(32);
                let p_hex = crate::hash::hex_of_bytes(p.0.as_slice());
                push_bytes(&mut out, p_hex.as_slice());
                out.push(10);
            },
            None => {
            },
        }
        out.push(97);
        out.push(117);
        out.push(116);
        out.push(104);
        out.push(111);
        out.push(114);
        out.push(32);
        let a = self.author.to_bytes();
        push_bytes(&mut out, a.as_slice());
        out.push(10);
        out.push(99);
        out.push(111);
        out.push(109);
        out.push(109);
        out.push(105);
        out.push(116);
        out.push(116);
        out.push(101);
        out.push(114);
        out.push(32);
        let c = self.committer.to_bytes();
        push_bytes(&mut out, c.as_slice());
        out.push(10);
        out.push(10);
        push_bytes(&mut out, self.message.as_slice());
        out.push(10);
        assert(out@ =~= commit_text(self@));
        out
    }

    /// Where the commit text starts: just past the frame header's NUL,
    /// or at the start when there is none.
    pub fn read_header(bytes: &[u8]) -> (r: usize)
        ensures
            r as int == (match spec_find(bytes@, 0u8) {
                Some(p) => p + 1,
                None => 0,
            }),
            r <= bytes@.len(),
    {
        let len = bytes.len();
        proof {
            lemma_spec_find(bytes@, 0u8);
        }
        match find_byte(bytes, 0) {
            Some(p) => {
                assert(p < len);
                p + 1
            },
            None => 0,
        }
    }

    /// The tree hash on a tree line: forty hex digits after the label.
    pub fn read_tree(line: &[u8]) -> (r: Option<crate::hash::Hash>)
        ensures
            r matches Some(h) ==> parse_hex_at(line@, 5) == Some(h.0@),
            r is None ==> parse_hex_at(line@, 5) is None,
    {
        hex_at(line, 5)
    }

    /// The parent hash on a parent line: forty hex digits after the label.
    pub fn read_parent(line: &[u8]) -> (r: Option<crate::hash::Hash>)
        ensures
            r matches Some(h) ==> parse_hex_at(line@, 7) == Some(h.0@),
            r is None ==> parse_hex_at(line@, 7) is None,
    {
        hex_at(line, 7)
    }

    /// The stamp on an author line: everything after the label.
    pub fn read_author(line: &[u8]) -> (r: Option<Stamp>)
        ensures
            r matches Some(s) ==> line@.len() >= 7 && parse_stamp(line@.skip(7)) == Some(s@),
            r is None ==> line@.len() < 7 || parse_stamp(line@.skip(7)) is None,
    {
        let len = line.len();
        if len < 7 {
            return None;
        }
        Commit::take_stamp(vstd::slice::slice_subrange(line, 7, len))
    }

    /// The stamp on a committer line: everything after the label.
    pub fn read_committer(line: &[u8]) -> (r: Option<Stamp>)
        ensures
            r matches Some(s) ==> line@.len() >= 10 && parse_stamp(line@.skip(10)) == Some(s@),
            r is None ==> line@.len() < 10 || parse_stamp(line@.skip(10)) is None,
    {
        let len = line.len();
        if len < 10 {
            return None;
        }
        Commit::take_stamp(vstd::slice::slice_subrange(line, 10, len))
    }

    /// Reads a stamp back from its text.
    pub fn take_stamp(stamp: &[u8]) -> (r: Option<Stamp>)
        ensures
            r matches Some(s) ==> parse_stamp(stamp@) == Some(s@),
            r is None ==> parse_stamp(stamp@) is None,
    {
        let len = stamp.len();
        let i = match find_pair(stamp, 32, 60) {
            Some(i) => i,
            None => {
                return None;
            },
        };
        proof {
            lemma_spec_find2(stamp@, 32u8, 60u8);
        }
        let name = vstd::slice::slice_to_vec(vstd::slice::slice_subrange(stamp, 0, i));
        let r1 = vstd::slice::slice_subrange(stamp, i + 2, len);
        proof {
            assert(r1@ =~= stamp@.skip(i + 2));
        }
        let j = match find_pair(r1, 62, 32) {
            Some(j) => j,
            None => {
                return None;
            },
        };
        proof {
            lemma_spec_find2(r1@, 62u8, 32u8);
        }
        let email = vstd::slice::slice_to_vec(vstd::slice::slice_subrange(r1, 0, j));
        let r2 = vstd::slice::slice_subrange(r1, j + 2, r1.len());
        proof {
            assert(r2@ =~= r1@.skip(j + 2));
        }
        let k = match find_byte(r2, 32) {
            Some(k) => k,
            None => {
                return None;
            },
        };
        proof {
            lemma_spec_find(r2@, 32u8);
        }
        let num = vstd::slice::slice_subrange(r2, 0, k);
        let timestamp = match parse_u32_bytes(num) {
            Some(t) => t,
            None => {
                return None;
            },
        };
        Some(Stamp { name, email, timestamp })
    }

    /// Reads a commit back from its framed text, or nothing when the
    /// text is not a well-formed commit.
    pub fn read(bytes: &[u8]) -> (r: Option<Commit>)
        ensures
            r matches Some(c) ==> parse_commit(bytes@) == Some(c@),
            r is None ==> parse_commit(bytes@) is None,
    {
        let start = Commit::read_header(bytes);
        let rest = vstd::slice::slice_subrange(bytes, start, bytes.len());
        proof {
            match spec_find(bytes@, 0u8) {
                Some(p) => {
                    assert(rest@ =~= bytes@.skip(p + 1));
                },
                None => {
                    assert(rest@ =~= bytes@);
                },
            }
        }
        if !check_utf8(rest) {
            return None;
        }
        let ls = split_lines(rest);
        let ghost lsv = lines_of(rest@);
        if ls.len() < 2 {
            return None;
        }
        let tree = match Commit::read_tree(ls[0].as_slice()) {
            Some(t) => t,
            None => {
                return None;
            },
        };
        let has_parent = is_parent_line(ls[1].as_slice());
        let (parent, ai): (Option<crate::hash::Hash>, usize) = if has_parent {
            match Commit::read_parent(ls[1].as_slice()) {
                Some(p) => (Some(p), 2),
                None => {
                    return None;
                },
            }
        } else {
            (None, 1)
        };
        if ls.len() < ai + 3 {
            return None;
        }
        let author = match Commit::read_author(ls[ai].as_slice()) {
            Some(a) => a,
            None => {
                return None;
            },
        };
        let committer = match Commit::read_committer(ls[ai + 1].as_slice()) {
            Some(c) => c,
            None => {
                return None;
            },
        };
        let message = join_rest(&ls, ai + 3);
        let c = Commit { tree, parent, author, committer, message };
        proof {
            assert(parse_commit(bytes@) == Some(c@));
        }
        Some(c)
    }
}

/// Joins the lines from `start` on with newlines and closes with one.
fn join_rest(ls: &Vec<Vec<u8>>, start: usize) -> (r: Vec<u8>)
    requires
        start <= ls@.len(),
    ensures
        r@ == join_lines(line_views(ls@).skip(start as int)) + seq![10u8],
{
    let n = ls.len();
    let mut out: Vec<u8> = Vec::new();
    let mut i = start;
    proof {
        assert(line_views(ls@).subrange(start as int, start as int) =~= Seq::<Seq<u8>>::empty());
    }
    while i < n
        invariant
            start <= i <= n == ls@.len(),
            out@ == join_lines(line_views(ls@).subrange(start as int, i as int)),
        decreases n - i,
    {
        if i > start {
            out.push(10);
        }
        push_bytes(&mut out, ls[i].as_slice());
        proof {
            let lv = line_views(ls@);
            lemma_join_lines_push(lv.subrange(start as int, i as int), lv[i as int]);
            assert(lv.subrange(start as int, i + 1) =~= lv.subrange(start as int, i as int).push(
                lv[i as int],
            ));
            assert(out@ =~= join_lines(lv.subrange(start as int, i + 1)));
        }
        i = i + 1;
    }
    out.push(10);
    proof {
        assert(line_views(ls@).subrange(start as int, n as int) =~= line_views(ls@).skip(
            start as int,
        ));
        assert(out@ =~= join_lines(line_views(ls@).skip(start as int)) + seq![10u8]);
    }
    out
}

/// Writes a commit object: its text framed, hashed and stored.
pub fn write_commit(commit: Commit, store: &mut ObjectStore) -> (r: Result<
    crate::hash::Hash,
    NitError,
>)
    ensures
        r is Ok,
        r matches Ok(h) ==> h.0@ == crate::object::object_hash(
            ObjectKind::Commit,
            commit_text(commit@),
        ) && final(store)@ == spec_store_write(old(store)@, ObjectKind::Commit, commit_text(commit@)),
{
    let text = commit.to_bytes();
    store.write(ObjectKind::Commit, text.as_slice())
}

/// The calendar text for a UTC timestamp with a nanosecond part: a
/// function of the two numbers alone. Out-of-range nanoseconds yield the
/// empty text.
pub uninterp spec fn date_string_of(seconds: u32, nanoseconds: u32) -> Seq<char>;

/// Relies on chrono's DateTime::from_timestamp and its display form: the
/// text depends on the two numbers alone, and an invalid nanosecond part
/// (two thousand million or more) yields the empty text.
#[verifier::external_body]
pub fn timestamp_to_date(seconds: u32, nanoseconds: u32) -> (r: String)
    ensures
        r@ == date_string_of(seconds, nanoseconds),
        nanoseconds >= 2_000_000_000 ==> r@.len() == 0,
{
    let seconds: i64 = i64::from(seconds);
    match chrono::DateTime::from_timestamp(seconds, nanoseconds) {
        Some(date) => format!("{}", date),
        None => String::new(),
    }
}

/// Builds a commit from its parts and writes it as an object.
pub fn commit(
    key: crate::hash::Hash,
    message: Vec<u8>,
    parent: Option<crate::hash::Hash>,
    author: Stamp,
    committer: Stamp,
    store: &mut ObjectStore,
) -> (r: Result<crate::hash::Hash, NitError>)
    ensures
        r is Ok,
        r matches Ok(h) ==> (exists|c: CommitView|
            #![auto]
            c == (CommitView {
                tree: key.0@,
                parent: match parent {
                    Some(p) => Some(p.0@),
                    None => None,
                },
                author: author@,
                committer: committer@,
                message: message@,
            }) && h.0@ == crate::object::object_hash(ObjectKind::Commit, commit_text(c))
                && final(store)@ == spec_store_write(
                old(store)@,
                ObjectKind::Commit,
                commit_text(c),
            )),
{
    let c = Commit::create(key, parent, author, committer, message);
    write_commit(c, store)
}

} // verus!
