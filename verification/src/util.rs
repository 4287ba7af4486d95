//! Byte-cursor helpers shared by the binary codecs: big-endian integer
//! fields, fixed-width hash fields, and raw byte runs, all read from a
//! slice at an explicit offset.

use vstd::prelude::*;

verus! {

/// The big-endian value of a two-byte field.
pub open spec fn be16(s: Seq<u8>) -> u16
    recommends
        s.len() == 2,
{
    ((s[0] as u16) << 8 | (s[1] as u16)) as u16
}

/// The big-endian value of a four-byte field.
pub open spec fn be32(s: Seq<u8>) -> u32
    recommends
        s.len() == 4,
{
    ((s[0] as u32) << 24 | (s[1] as u32) << 16 | (s[2] as u32) << 8 | (s[3] as u32)) as u32
}

/// The two bytes of `x` in big-endian order.
pub open spec fn u16_be(x: u16) -> Seq<u8> {
    seq![(x >> 8) as u8, x as u8]
}

/// The four bytes of `x` in big-endian order.
pub open spec fn u32_be(x: u32) -> Seq<u8> {
    seq![(x >> 24) as u8, (x >> 16) as u8, (x >> 8) as u8, x as u8]
}

/// Reading back the big-endian encoding of a value gives the value.
pub proof fn lemma_be16_round_trip(x: u16)
    ensures
        be16(u16_be(x)) == x,
{
    assert((((x >> 8) as u8 as u16) << 8 | (x as u8 as u16)) == x) by (bit_vector);
}

/// Reading back the big-endian encoding of a value gives the value.
pub proof fn lemma_be32_round_trip(x: u32)
    ensures
        be32(u32_be(x)) == x,
{
    assert((((x >> 24) as u8 as u32) << 24 | ((x >> 16) as u8 as u32) << 16 | ((x
        >> 8) as u8 as u32) << 8 | (x as u8 as u32)) == x) by (bit_vector);
}

/// Reads a big-endian `u16` at `pos` and returns it with the offset just past it.
pub fn take_u16(input: &[u8], pos: usize) -> (r: (u16, usize))
    requires
        pos + 2 <= input@.len(),
    ensures
        r.0 == be16(input@.subrange(pos as int, pos + 2)),
        r.1 == pos + 2,
{
    let hi = input[pos];
    let lo = input[pos + 1];
    let v = (hi as u16) << 8 | (lo as u16);
    assert(v == be16(input@.subrange(pos as int, pos + 2)));
    (v, pos + 2)
}

/// Reads a big-endian `u32` at `pos` and returns it with the offset just past it.
pub fn take_u32(input: &[u8], pos: usize) -> (r: (u32, usize))
    requires
        pos + 4 <= input@.len(),
    ensures
        r.0 == be32(input@.subrange(pos as int, pos + 4)),
        r.1 == pos + 4,
{
    let b0 = input[pos];
    let b1 = input[pos + 1];
    let b2 = input[pos + 2];
    let b3 = input[pos + 3];
    let v = (b0 as u32) << 24 | (b1 as u32) << 16 | (b2 as u32) << 8 | (b3 as u32);
    assert(v == be32(input@.subrange(pos as int, pos + 4)));
    (v, pos + 4)
}

/// Copies `n` bytes starting at `pos` and returns them with the offset just past them.
pub fn take_n_bytes(input: &[u8], pos: usize, n: usize) -> (r: (Vec<u8>, usize))
    requires
        pos + n <= input@.len(),
    ensures
        r.0@ == input@.subrange(pos as int, pos + n),
        r.1 == pos + n,
{
    let total = input.len();
    let mut out: Vec<u8> = Vec::new();
    let mut i: usize = 0;
    while i < n
        invariant
            pos + n <= total == input@.len(),
            i <= n,
            out@ == input@.subrange(pos as int, pos + i),
        decreases n - i,
    {
        out.push(input[pos + i]);
        assert(out@ == input@.subrange(pos as int, pos + i + 1));
        i = i + 1;
    }
    (out, pos + n)
}

/// Appends the big-endian bytes of `x` to `out`.
pub fn push_u16_be(out: &mut Vec<u8>, x: u16)
    ensures
        final(out)@ == old(out)@ + u16_be(x),
{
    out.push((x >> 8) as u8);
    out.push(x as u8);
    assert(out@ == old(out)@ + u16_be(x));
}

/// Appends the big-endian bytes of `x` to `out`.
pub fn push_u32_be(out: &mut Vec<u8>, x: u32)
    ensures
        final(out)@ == old(out)@ + u32_be(x),
{
    out.push((x >> 24) as u8);
    out.push((x >> 16) as u8);
    out.push((x >> 8) as u8);
    out.push(x as u8);
    assert(out@ == old(out)@ + u32_be(x));
}

/// Reads a 20-byte hash at `pos` and returns it with the offset just past it.
pub fn take_hash(input: &[u8], pos: usize) -> (r: (crate::hash::Hash, usize))
    requires
        pos + 20 <= input@.len(),
    ensures
        r.0.0@ == input@.subrange(pos as int, pos + 20),
        r.1 == pos + 20,
{
    let total = input.len();
    let mut key: [u8; 20] = [0; 20];
    let mut i: usize = 0;
    while i < 20
        invariant
            pos + 20 <= total == input@.len(),
            i <= 20,
            forall|j: int| 0 <= j < i ==> key@[j] == input@[pos + j],
        decreases 20 - i,
    {
        key[i] = input[pos + i];
        i = i + 1;
    }
    assert(key@ =~= input@.subrange(pos as int, pos + 20));
    (crate::hash::Hash(key), pos + 20)
}

/// The first index holding `b`, or `None` when no byte of `s` is `b`.
pub open spec fn spec_find(s: Seq<u8>, b: u8) -> Option<int>
    decreases s.len(),
{
    if s.len() == 0 {
        None
    } else if s.first() == b {
        Some(0)
    } else {
        match spec_find(s.drop_first(), b) {
            Some(i) => Some(i + 1),
            None => None,
        }
    }
}

/// What the first index means: it holds `b`, nothing before it does, and
/// it exists whenever some index holds `b`.
pub proof fn lemma_spec_find(s: Seq<u8>, b: u8)
    ensures
        spec_find(s, b) matches Some(i) ==> 0 <= i < s.len() && s[i] == b && forall|j: int|
            0 <= j < i ==> s[j] != b,
        spec_find(s, b) is None ==> forall|j: int| 0 <= j < s.len() ==> s[j] != b,
    decreases s.len(),
{
    if s.len() > 0 && s.first() != b {
        lemma_spec_find(s.drop_first(), b);
        match spec_find(s.drop_first(), b) {
            Some(i) => {
                assert(s.drop_first()[i] == b);
                assert(s[i + 1] == b);
                assert forall|j: int| 0 <= j < i + 1 implies s[j] != b by {
                    if j > 0 {
                        assert(s.drop_first()[j - 1] != b);
                    }
                }
            },
            None => {
                assert forall|j: int| 0 <= j < s.len() implies s[j] != b by {
                    if j > 0 {
                        assert(s.drop_first()[j - 1] != b);
                    }
                }
            },
        }
    }
}

/// Finds the first occurrence of `b` in `input`.
pub fn find_byte(input: &[u8], b: u8) -> (r: Option<usize>)
    ensures
        r matches Some(i) ==> spec_find(input@, b) == Some(i as int),
        r is None ==> spec_find(input@, b) is None,
{
    proof {
        lemma_spec_find(input@, b);
    }
    let n = input.len();
    let mut i: usize = 0;
    while i < n
        invariant
            n == input@.len(),
            i <= n,
            forall|j: int| 0 <= j < i ==> input@[j] != b,
        decreases n - i,
    {
        if input[i] == b {
            proof {
                lemma_spec_find(input@, b);
                if spec_find(input@, b) is None {
                    assert(input@[i as int] != b);
                }
            }
            return Some(i);
        }
        i = i + 1;
    }
    proof {
        match spec_find(input@, b) {
            Some(k) => {
                assert(input@[k] != b);
            },
            None => {
            },
        }
    }
    None
}

/// The first index where `a` and then `b` stand next to each other.
pub open spec fn spec_find2(s: Seq<u8>, a: u8, b: u8) -> Option<int>
    decreases s.len(),
{
    if s.len() < 2 {
        None
    } else if s[0] == a && s[1] == b {
        Some(0)
    } else {
        match spec_find2(s.drop_first(), a, b) {
            Some(i) => Some(i + 1),
            None => None,
        }
    }
}

/// What the first pair index means.
pub proof fn lemma_spec_find2(s: Seq<u8>, a: u8, b: u8)
    ensures
        spec_find2(s, a, b) matches Some(i) ==> 0 <= i <= s.len() - 2 && s[i] == a && s[i + 1] == b
            && forall|j: int| 0 <= j < i ==> !((#[trigger] s[j]) == a && s[j + 1] == b),
        spec_find2(s, a, b) is None ==> forall|j: int|
            0 <= j < s.len() - 1 ==> !((#[trigger] s[j]) == a && s[j + 1] == b),
    decreases s.len(),
{
    if s.len() >= 2 && !(s[0] == a && s[1] == b) {
        lemma_spec_find2(s.drop_first(), a, b);
        match spec_find2(s.drop_first(), a, b) {
            Some(i) => {
                assert(s.drop_first()[i] == a && s.drop_first()[i + 1] == b);
                assert forall|j: int|
                    0 <= j < i + 1 implies !((#[trigger] s[j]) == a && s[j + 1] == b) by {
                    if j > 0 {
                        assert(!(s.drop_first()[j - 1] == a && s.drop_first()[j] == b));
                    }
                }
            },
            None => {
                assert forall|j: int|
                    0 <= j < s.len() - 1 implies !((#[trigger] s[j]) == a && s[j + 1] == b) by {
                    if j > 0 {
                        assert(!((s.drop_first()[j - 1]) == a && s.drop_first()[j] == b));
                    }
                }
            },
        }
    }
}

/// Finds the first adjacent pair `a`, `b` in `input`.
pub fn find_pair(input: &[u8], a: u8, b: u8) -> (r: Option<usize>)
    ensures
        r matches Some(i) ==> spec_find2(input@, a, b) == Some(i as int),
        r is None ==> spec_find2(input@, a, b) is None,
{
    let n = input.len();
    if n < 2 {
        proof {
            lemma_spec_find2(input@, a, b);
        }
        return None;
    }
    let mut i: usize = 0;
    while i < n - 1
        invariant
            2 <= n == input@.len(),
            i <= n - 1,
            forall|j: int| 0 <= j < i ==> !((#[trigger] input@[j]) == a && input@[j + 1] == b),
        decreases n - 1 - i,
    {
        if input[i] == a && input[i + 1] == b {
            proof {
                lemma_spec_find2(input@, a, b);
                match spec_find2(input@, a, b) {
                    Some(k) => {
                        assert(!(k < i) && !(k > i));
                    },
                    None => {
                        assert(!(input@[i as int] == a && input@[i + 1] == b));
                    },
                }
            }
            return Some(i);
        }
        i = i + 1;
    }
    proof {
        lemma_spec_find2(input@, a, b);
        match spec_find2(input@, a, b) {
            Some(k) => {
                assert(!(input@[k] == a && input@[k + 1] == b));
            },
            None => {
            },
        }
    }
    None
}

/// Whether every byte is an ASCII decimal digit.
pub open spec fn all_digits(s: Seq<u8>) -> bool {
    forall|i: int| 0 <= i < s.len() ==> 48 <= #[trigger] s[i] <= 57
}

/// The decimal value of a run of digit bytes, most significant first.
pub open spec fn digits_val(s: Seq<u8>) -> int
    decreases s.len(),
{
    if s.len() == 0 {
        0
    } else {
        digits_val(s.drop_last()) * 10 + (s.last() - 48)
    }
}

/// A run of digits has a non-negative value.
pub proof fn lemma_digits_val_nonneg(s: Seq<u8>)
    requires
        all_digits(s),
    ensures
        digits_val(s) >= 0,
    decreases s.len(),
{
    if s.len() > 0 {
        assert(all_digits(s.drop_last()));
        lemma_digits_val_nonneg(s.drop_last());
    }
}

/// One more digit multiplies the value by ten and adds the digit.
pub proof fn lemma_digits_val_extend(s: Seq<u8>, i: int)
    requires
        0 <= i < s.len(),
    ensures
        digits_val(s.take(i + 1)) == digits_val(s.take(i)) * 10 + (s[i] - 48),
{
    assert(s.take(i + 1).drop_last() =~= s.take(i));
    assert(s.take(i + 1).last() == s[i]);
}

/// Once a digit prefix exceeds a bound, the whole run does.
pub proof fn lemma_digits_val_grows(s: Seq<u8>, i: int)
    requires
        all_digits(s),
        0 <= i <= s.len(),
    ensures
        digits_val(s) >= digits_val(s.take(i)),
    decreases s.len() - i,
{
    if i == s.len() {
        assert(s.take(i) =~= s);
    } else {
        lemma_digits_val_extend(s, i);
        assert(all_digits(s.take(i)));
        lemma_digits_val_nonneg(s.take(i));
        lemma_digits_val_grows(s, i + 1);
    }
}

/// The number a run of bytes parses to as a `u32`: an optional plus sign,
/// then at least one digit, with a value that fits.
pub open spec fn parse_u32_spec(s: Seq<u8>) -> Option<u32> {
    let t = if s.len() > 0 && s[0] == 43 {
        s.drop_first()
    } else {
        s
    };
    if t.len() == 0 || !all_digits(t) || digits_val(t) > u32::MAX {
        None
    } else {
        Some(digits_val(t) as u32)
    }
}

/// Parses a decimal `u32`, as the standard number parser accepts it.
pub fn parse_u32_bytes(s: &[u8]) -> (r: Option<u32>)
    ensures
        r == parse_u32_spec(s@),
{
    let n = s.len();
    let start: usize = if n > 0 && s[0] == 43 {
        1
    } else {
        0
    };
    let ghost t = if s@.len() > 0 && s@[0] == 43 {
        s@.drop_first()
    } else {
        s@
    };
    proof {
        assert(t =~= s@.skip(start as int));
    }
    if n - start == 0 {
        return None;
    }
    let mut acc: u64 = 0;
    let mut i: usize = 0;
    proof {
        assert(t.take(0) =~= Seq::<u8>::empty());
    }
    while i < n - start
        invariant
            start <= n == s@.len(),
            t == s@.skip(start as int),
            t == (if s@.len() > 0 && s@[0] == 43 {
                s@.drop_first()
            } else {
                s@
            }),
            i <= n - start == t.len(),
            forall|j: int| 0 <= j < i ==> 48 <= #[trigger] t[j] <= 57,
            acc == digits_val(t.take(i as int)),
            acc <= u32::MAX,
        decreases n - start - i,
    {
        let d = s[start + i];
        if d < 48 || d > 57 {
            proof {
                assert(t[i as int] == d);
                assert(!(48 <= t[i as int] <= 57));
            }
            return None;
        }
        proof {
            lemma_digits_val_extend(t, i as int);
        }
        acc = acc * 10 + ((d - 48) as u64);
        if acc > 0xffff_ffff {
            proof {
                assert(digits_val(t.take(i + 1)) > u32::MAX);
                if all_digits(t) {
                    lemma_digits_val_grows(t, i + 1);
                }
            }
            return None;
        }
        i = i + 1;
    }
    proof {
        assert(t.take(t.len() as int) =~= t);
        lemma_digits_val_nonneg(t);
    }
    Some(acc as u32)
}

/// Whether two byte runs hold the same bytes.
pub fn bytes_eq(a: &[u8], b: &[u8]) -> (r: bool)
    ensures
        r == (a@ == b@),
{
    let n = a.len();
    if n != b.len() {
        proof {
            assert(a@ != b@);
        }
        return false;
    }
    let mut i: usize = 0;
    while i < n
        invariant
            n == a@.len() == b@.len(),
            i <= n,
            forall|j: int| 0 <= j < i ==> a@[j] == b@[j],
        decreases n - i,
    {
        if a[i] != b[i] {
            return false;
        }
        i = i + 1;
    }
    proof {
        assert(a@ =~= b@);
    }
    true
}

/// Byte-wise lexicographic order: a strict prefix comes first, and the
/// first differing byte decides.
pub open spec fn lex_leq(a: Seq<u8>, b: Seq<u8>) -> bool
    decreases a.len(),
{
    if a.len() == 0 {
        true
    } else if b.len() == 0 {
        false
    } else if a.first() < b.first() {
        true
    } else if a.first() > b.first() {
        false
    } else {
        lex_leq(a.drop_first(), b.drop_first())
    }
}

/// Byte-wise lexicographic order is total: any two sequences are
/// comparable, mutual order means equality, and it is transitive.
pub proof fn lemma_lex_leq_total(a: Seq<u8>, b: Seq<u8>, c: Seq<u8>)
    ensures
        lex_leq(a, b) || lex_leq(b, a),
        (lex_leq(a, b) && lex_leq(b, a)) ==> a == b,
        (lex_leq(a, b) && lex_leq(b, c)) ==> lex_leq(a, c),
    decreases a.len() + b.len() + c.len(),
{
    if a.len() > 0 && b.len() > 0 {
        lemma_lex_leq_total(a.drop_first(), b.drop_first(), if c.len() > 0 {
            c.drop_first()
        } else {
            c
        });
        if lex_leq(a, b) && lex_leq(b, a) {
            assert(a =~= seq![a.first()] + a.drop_first());
            assert(b =~= seq![b.first()] + b.drop_first());
        }
    }
    if b.len() > 0 && c.len() > 0 {
        lemma_lex_leq_total(if a.len() > 0 {
            a.drop_first()
        } else {
            a
        }, b.drop_first(), c.drop_first());
    }
}

/// Whether `a` comes no later than `b` in byte-wise lexicographic order.
pub fn bytes_leq(a: &[u8], b: &[u8]) -> (r: bool)
    ensures
        r == lex_leq(a@, b@),
    decreases a@.len(),
{
    if a.len() == 0 {
        return true;
    }
    if b.len() == 0 {
        return false;
    }
    let x = a[0];
    let y = b[0];
    if x < y {
        return true;
    }
    if x > y {
        return false;
    }
    let ra = vstd::slice::slice_subrange(a, 1, a.len());
    let rb = vstd::slice::slice_subrange(b, 1, b.len());
    proof {
        assert(ra@ =~= a@.drop_first());
        assert(rb@ =~= b@.drop_first());
    }
    bytes_leq(ra, rb)
}

/// Relies on core::str::from_utf8: it accepts exactly the valid UTF-8
/// byte sequences.
#[verifier::external_body]
pub fn check_utf8(v: &[u8]) -> (r: bool)
    ensures
        r == vstd::utf8::valid_utf8(v@),
{
    core::str::from_utf8(v).is_ok()
}

/// The decimal ASCII rendering of a number, most significant digit first,
/// with no leading zeros (zero itself is the single digit `0`).
pub open spec fn dec_bytes(n: nat) -> Seq<u8>
    decreases n,
{
    if n < 10 {
        seq![(48 + n) as u8]
    } else {
        dec_bytes(n / 10) + seq![(48 + n % 10) as u8]
    }
}

/// Appends the decimal ASCII rendering of `n` to `out`.
pub fn push_dec(out: &mut Vec<u8>, n: usize)
    ensures
        final(out)@ == old(out)@ + dec_bytes(n as nat),
    decreases n,
{
    if n < 10 {
        out.push(48 + (n as u8));
        assert(out@ == old(out)@ + dec_bytes(n as nat));
    } else {
        push_dec(out, n / 10);
        out.push(48 + ((n % 10) as u8));
        assert(out@ == old(out)@ + dec_bytes(n as nat));
    }
}

/// Appends every byte of `src` to `out`.
pub fn push_bytes(out: &mut Vec<u8>, src: &[u8])
    ensures
        final(out)@ == old(out)@ + src@,
{
    let mut i: usize = 0;
    while i < src.len()
        invariant
            i <= src@.len(),
            out@ == old(out)@ + src@.subrange(0, i as int),
        decreases src@.len() - i,
    {
        out.push(src[i]);
        assert(out@ == old(out)@ + src@.subrange(0, i + 1));
        i = i + 1;
    }
    assert(src@.subrange(0, src@.len() as int) == src@);
}

} // verus!
