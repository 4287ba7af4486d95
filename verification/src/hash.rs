//! The 160-bit content hash that identifies every object, with its hex
//! rendering and the two-level object path derived from it.

use vstd::prelude::*;
use crate::error::NitError;
use crate::util::push_bytes;

verus! {

/// The SHA-1 digest of a byte sequence. The digest depends on the bytes
/// alone; nothing further is assumed about its value.
pub uninterp spec fn sha1_of(bytes: Seq<u8>) -> Seq<u8>;

/// Relies on sha1::Sha1 (RustCrypto): the 20-byte SHA-1 digest of the
/// input, a function of the input bytes alone.
#[verifier::external_body]
fn sha1_digest(bytes: &[u8]) -> (r: [u8; 20])
    ensures
        r@ == sha1_of(bytes@),
{
    <sha1::Sha1 as sha1::Digest>::digest(bytes).into()
}

/// Whether the byte is an ASCII hex digit, either case.
pub open spec fn is_hex_byte(b: u8) -> bool {
    (48 <= b <= 57) || (97 <= b <= 102) || (65 <= b <= 70)
}

/// The value of an ASCII hex digit byte.
pub open spec fn hex_byte_val(b: u8) -> u8 {
    if 48 <= b <= 57 {
        (b - 48) as u8
    } else if 97 <= b <= 102 {
        (b - 87) as u8
    } else if 65 <= b <= 70 {
        (b - 55) as u8
    } else {
        0
    }
}

/// Whether the character is an ASCII hex digit, either case.
pub open spec fn is_hex_char(c: char) -> bool {
    ('0' <= c <= '9') || ('a' <= c <= 'f') || ('A' <= c <= 'F')
}

/// The value of a hex digit character.
pub open spec fn hex_char_val(c: char) -> u8 {
    if '0' <= c <= '9' {
        (c as u8 - 48) as u8
    } else if 'a' <= c <= 'f' {
        (c as u8 - 87) as u8
    } else if 'A' <= c <= 'F' {
        (c as u8 - 55) as u8
    } else {
        0
    }
}

/// The lowercase hex digit byte for a value below 16.
pub open spec fn hex_digit(n: u8) -> u8
    recommends
        n < 16,
{
    if n < 10 {
        (48 + n) as u8
    } else {
        (87 + n) as u8
    }
}

/// The lowercase hex rendering of a byte sequence, two digits per byte.
pub open spec fn hex_bytes(data: Seq<u8>) -> Seq<u8>
    decreases data.len(),
{
    if data.len() == 0 {
        Seq::empty()
    } else {
        seq![hex_digit((data.first() >> 4) as u8), hex_digit((data.first() & 0xf) as u8)]
            + hex_bytes(data.drop_first())
    }
}

/// The lowercase hex rendering of a byte sequence, as characters.
pub open spec fn hex_chars(data: Seq<u8>) -> Seq<char> {
    Seq::new(hex_bytes(data).len(), |i: int| hex_bytes(data)[i] as char)
}

/// Whether the characters are exactly 40 hex digits.
pub open spec fn is_hex40(s: Seq<char>) -> bool {
    s.len() == 40 && forall|i: int| 0 <= i < s.len() ==> is_hex_char(#[trigger] s[i])
}

/// The bytes written by a sequence of hex digit characters, two per byte.
pub open spec fn hex_value_bytes(s: Seq<char>) -> Seq<u8> {
    Seq::new(s.len() / 2, |i: int| (16 * hex_char_val(s[2 * i]) + hex_char_val(
        s[2 * i + 1],
    )) as u8)
}

/// Every byte of a hex rendering is an ASCII hex digit, so in particular
/// below 128, and the rendering is twice as long as the data.
pub proof fn lemma_hex_bytes_ascii(data: Seq<u8>)
    ensures
        hex_bytes(data).len() == 2 * data.len(),
        forall|i: int| 0 <= i < hex_bytes(data).len() ==> is_hex_byte(#[trigger] hex_bytes(data)[i]),
    decreases data.len(),
{
    if data.len() > 0 {
        lemma_hex_bytes_ascii(data.drop_first());
        let b = data.first();
        assert((b >> 4) < 16 && (b & 0xf) < 16) by (bit_vector);
    }
}

/// Relies on String::from_utf8: ASCII bytes decode to one character per
/// byte, each the character with that code.
#[verifier::external_body]
fn ascii_to_string(v: Vec<u8>) -> (r: String)
    requires
        forall|i: int| 0 <= i < v@.len() ==> v@[i] < 128,
    ensures
        r@.len() == v@.len(),
        forall|i: int| 0 <= i < v@.len() ==> r@[i] == v@[i] as char,
{
    String::from_utf8(v).unwrap()
}

/// Renders bytes as lowercase hex digit bytes.
pub fn hex_of_bytes(data: &[u8]) -> (r: Vec<u8>)
    ensures
        r@ == hex_bytes(data@),
{
    let len = data.len();
    let mut out: Vec<u8> = Vec::new();
    assert(data@.skip(0) == data@);
    let mut i: usize = 0;
    while i < len
        invariant
            len == data@.len(),
            i <= len,
            out@ + hex_bytes(data@.skip(i as int)) =~= hex_bytes(data@),
            out@.len() == 2 * i,
        decreases len - i,
    {
        let b = data[i];
        assert((b >> 4) < 16 && (b & 0xf) < 16) by (bit_vector);
        out.push(if (b >> 4) < 10 {
            48 + (b >> 4)
        } else {
            87 + (b >> 4)
        });
        out.push(if (b & 0xf) < 10 {
            48 + (b & 0xf)
        } else {
            87 + (b & 0xf)
        });
        assert(data@.skip(i as int).drop_first() == data@.skip(i + 1));
        i = i + 1;
    }
    out
}

/// Renders bytes as lowercase hex digits.
pub fn hex_string(data: &[u8]) -> (r: String)
    ensures
        r@ == hex_chars(data@),
{
    let out = hex_of_bytes(data);
    proof {
        lemma_hex_bytes_ascii(data@);
    }
    let r = ascii_to_string(out);
    assert(r@ =~= hex_chars(data@));
    r
}

/// The digest is a function of the hashed bytes alone: hashing the same
/// header and payload twice gives the same hash.
pub proof fn lemma_hash_deterministic(h1: Seq<u8>, p1: Seq<u8>, h2: Seq<u8>, p2: Seq<u8>)
    requires
        h1 == h2,
        p1 == p2,
    ensures
        sha1_of(h1 + p1) == sha1_of(h2 + p2),
{
}

/// Whether the bytes are exactly forty ASCII hex digits.
pub open spec fn is_hex40_bytes(s: Seq<u8>) -> bool {
    s.len() == 40 && forall|i: int| 0 <= i < s.len() ==> is_hex_byte(#[trigger] s[i])
}

/// The bytes written by a run of hex digit bytes, two per byte.
pub open spec fn hex_bytes_value(s: Seq<u8>) -> Seq<u8> {
    Seq::new(
        s.len() / 2,
        |i: int| (16 * hex_byte_val(s[2 * i]) + hex_byte_val(s[2 * i + 1])) as u8,
    )
}

/// A 160-bit content hash: the universal object key. Two hashes are equal
/// exactly when their twenty bytes are equal.
#[derive(Debug, Clone, Copy, PartialEq, Eq)]
pub struct Hash(pub [u8; 20]);

impl Hash {
    /// Whether the two hashes hold the same bytes.
    pub fn same_as(&self, other: &Hash) -> (r: bool)
        ensures
            r == (self.0@ == other.0@),
    {
        let mut i: usize = 0;
        while i < 20
            invariant
                i <= 20,
                forall|j: int| 0 <= j < i ==> self.0@[j] == other.0@[j],
            decreases 20 - i,
        {
            if self.0[i] != other.0[i] {
                return false;
            }
            i = i + 1;
        }
        assert(self.0@ =~= other.0@);
        true
    }

    /// Parses a 40-digit hex string into a hash. Any other input is a
    /// format error.
    pub fn from_hex(hash: &str) -> (r: Result<Hash, NitError>)
        ensures
            r is Ok <==> is_hex40(hash@),
            r matches Ok(h) ==> h.0@ == hex_value_bytes(hash@),
            r matches Err(e) ==> e == NitError::Format,
    {
        broadcast use vstd::string::is_ascii_spec_bytes;

        if !hash.is_ascii() {
            proof {
                let chars = hash@;
                let i = choose|i: int|
                    0 <= i < chars.len() && !('\0' <= #[trigger] chars[i] <= '\u{7f}');
                assert(!is_hex_char(chars[i]));
            }
            return Err(NitError::Format);
        }
        let bytes = hash.as_bytes();
        assert(bytes@ =~= Seq::new(hash@.len(), |i: int| hash@[i] as u8));
        if bytes.len() != 40 {
            return Err(NitError::Format);
        }
        let mut key: [u8; 20] = [0; 20];
        let mut i: usize = 0;
        while i < 20
            invariant
                i <= 20,
                bytes@.len() == 40,
                hash@.len() == 40,
                forall|j: int| 0 <= j < 40 ==> #[trigger] bytes@[j] == hash@[j] as u8,
                forall|j: int| 0 <= j < 40 ==> '\0' <= #[trigger] hash@[j] <= '\u{7f}',
                forall|j: int| 0 <= j < 2 * i ==> is_hex_char(#[trigger] hash@[j]),
                forall|j: int|
                    0 <= j < i ==> #[trigger] key@[j] == 16 * hex_char_val(hash@[2 * j])
                        + hex_char_val(hash@[2 * j + 1]),
            decreases 20 - i,
        {
            let hi = bytes[2 * i];
            let lo = bytes[2 * i + 1];
            let hv = hex_val_exec(hi);
            let lv = hex_val_exec(lo);
            match (hv, lv) {
                (Some(h), Some(l)) => {
                    proof {
                        lemma_hex_char_byte(hash@[2 * i]);
                        lemma_hex_char_byte(hash@[2 * i + 1]);
                    }
                    key[i] = 16 * h + l;
                },
                _ => {
                    proof {
                        lemma_hex_char_byte(hash@[2 * i]);
                        lemma_hex_char_byte(hash@[2 * i + 1]);
                    }
                    return Err(NitError::Format);
                },
            }
            i = i + 1;
        }
        let h = Hash(key);
        assert(h.0@ =~= hex_value_bytes(hash@));
        Ok(h)
    }

    /// Parses forty hex digit bytes into a hash, or nothing when the run
    /// is not exactly forty hex digits.
    pub fn from_hex_bytes(b: &[u8]) -> (r: Option<Hash>)
        ensures
            r is Some <==> is_hex40_bytes(b@),
            r matches Some(h) ==> h.0@ == hex_bytes_value(b@),
    {
        if b.len() != 40 {
            return None;
        }
        let mut key: [u8; 20] = [0; 20];
        let mut i: usize = 0;
        while i < 20
            invariant
                i <= 20,
                b@.len() == 40,
                forall|j: int| 0 <= j < 2 * i ==> is_hex_byte(#[trigger] b@[j]),
                forall|j: int|
                    0 <= j < i ==> #[trigger] key@[j] == 16 * hex_byte_val(b@[2 * j])
                        + hex_byte_val(b@[2 * j + 1]),
            decreases 20 - i,
        {
            let hv = hex_val_exec(b[2 * i]);
            let lv = hex_val_exec(b[2 * i + 1]);
            match (hv, lv) {
                (Some(h), Some(l)) => {
                    key[i] = 16 * h + l;
                },
                _ => {
                    return None;
                },
            }
            i = i + 1;
        }
        let h = Hash(key);
        assert(h.0@ =~= hex_bytes_value(b@));
        Some(h)
    }

    /// Hashes a header and a payload as one byte sequence.
    pub fn from_bytes(header: &[u8], content: &[u8]) -> (r: Hash)
        ensures
            r.0@ == sha1_of(header@ + content@),
    {
        let mut buf: Vec<u8> = Vec::new();
        push_bytes(&mut buf, header);
        push_bytes(&mut buf, content);
        Hash(sha1_digest(buf.as_slice()))
    }

    /// Renders the hash as 40 lowercase hex characters.
    pub fn to_hex(&self) -> (r: String)
        ensures
            r@ == hex_chars(self.0@),
    {
        hex_string(self.0.as_slice())
    }

    /// The storage path of the object with this hash: `objects/` then the
    /// first byte in hex, a slash, and the remaining nineteen bytes in hex.
    pub fn to_object_path(&self) -> (r: String)
        ensures
            r@ == "objects/"@ + hex_chars(self.0@.subrange(0, 1)) + "/"@ + hex_chars(
                self.0@.subrange(1, 20),
            ),
    {
        let whole = self.0.as_slice();
        let head = vstd::slice::slice_subrange(whole, 0, 1);
        let tail = vstd::slice::slice_subrange(whole, 1, 20);
        let h1 = hex_string(head);
        let h2 = hex_string(tail);
        let mut r = String::from_str("objects/");
        r.append(h1.as_str());
        r.append("/");
        r.append(h2.as_str());
        r
    }
}

/// The value of an ASCII hex digit byte, or `None` for any other byte.
fn hex_val_exec(b: u8) -> (r: Option<u8>)
    ensures
        r is Some <==> is_hex_byte(b),
        r matches Some(v) ==> v == hex_byte_val(b),
{
    if 48 <= b && b <= 57 {
        Some(b - 48)
    } else if 97 <= b && b <= 102 {
        Some(b - 87)
    } else if 65 <= b && b <= 70 {
        Some(b - 55)
    } else {
        None
    }
}

/// For a character below 128, the byte cast keeps the hex-digit test and
/// the digit value.
proof fn lemma_hex_char_byte(c: char)
    requires
        (c as u32) < 128,
    ensures
        is_hex_byte(c as u8) == is_hex_char(c),
        hex_byte_val(c as u8) == hex_char_val(c),
{
}

} // verus!
