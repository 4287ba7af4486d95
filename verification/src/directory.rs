//! The shape a directory walk reports, and the path trimming applied to
//! walked paths before they are staged. The walking itself is I/O and
//! stays outside the library.

use vstd::prelude::*;

verus! {

/// One walked directory: the file paths directly in it, and the
/// directories below it.
#[derive(Debug, PartialEq, Eq)]
pub struct Directory {
    pub files: Vec<String>,
    pub directories: Vec<Directory>,
}

/// A path with every leading `./` pair removed.
pub open spec fn strip_dot_slash(p: Seq<u8>) -> Seq<u8>
    decreases p.len(),
{
    if p.len() >= 2 && p[0] == 46 && p[1] == 47 {
        strip_dot_slash(p.skip(2))
    } else {
        p
    }
}

/// A path with its leading current-directory component removed: every
/// leading `./` pair is stripped, and a path that is then a lone `.`
/// becomes the empty path.
pub open spec fn strip_cur_dir(p: Seq<u8>) -> Seq<u8> {
    let s = strip_dot_slash(p);
    if s.len() == 1 && s[0] == 46 {
        Seq::<u8>::empty()
    } else {
        s
    }
}

/// Stripping leading `./` pairs is idempotent: once none is left, there
/// is nothing more to strip.
pub proof fn lemma_strip_dot_slash_idempotent(p: Seq<u8>)
    ensures
        strip_dot_slash(strip_dot_slash(p)) == strip_dot_slash(p),
    decreases p.len(),
{
    if p.len() >= 2 && p[0] == 46 && p[1] == 47 {
        lemma_strip_dot_slash_idempotent(p.skip(2));
    }
}

/// Removing the leading current-directory component is idempotent: the
/// result has none left to remove.
pub proof fn lemma_strip_cur_dir_idempotent(p: Seq<u8>)
    ensures
        strip_cur_dir(strip_cur_dir(p)) == strip_cur_dir(p),
{
    lemma_strip_dot_slash_idempotent(p);
    assert(strip_dot_slash(Seq::<u8>::empty()) =~= Seq::<u8>::empty());
}

/// Removes a leading current-directory component: strips every leading
/// `./` from a path, maps a path that is then a lone `.` to the empty
/// path, and leaves any other path as it is.
pub fn remove_leading_dot_slash(path: Vec<u8>) -> (r: Vec<u8>)
    ensures
        r@ == strip_cur_dir(path@),
        !(r@.len() >= 2 && r@[0] == 46 && r@[1] == 47),
{
    let mut start: usize = 0;
    let len = path.len();
    proof {
        assert(path@.skip(0) =~= path@);
    }
    while len - start >= 2 && path[start] == 46 && path[start + 1] == 47
        invariant
            start <= len == path@.len(),
            strip_dot_slash(path@) == strip_dot_slash(path@.skip(start as int)),
        decreases len - start,
    {
        proof {
            assert(path@.skip(start as int).skip(2) =~= path@.skip(start + 2));
        }
        start = start + 2;
    }
    if len - start == 1 && path[start] == 46 {
        let r: Vec<u8> = Vec::new();
        assert(r@ =~= Seq::<u8>::empty());
        r
    } else {
        let r = vstd::slice::slice_to_vec(
            vstd::slice::slice_subrange(path.as_slice(), start, len),
        );
        assert(r@ =~= path@.skip(start as int));
        r
    }
}

} // verus!
