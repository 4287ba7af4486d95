use nit::error::NitError;
use nit::index::{FileStat, Index, IndexEntry, IndexHeader, INDEX_SIGNATURE, INDEX_VERSION};

fn some_stat() -> FileStat {
    FileStat {
        ctime_sec: 1700000000,
        ctime_nano: 123456789,
        mtime_sec: 1700000001,
        mtime_nano: 987654321,
        dev: 2050,
        ino: 917,
        uid: 1000,
        gid: 1000,
        size: 42,
    }
}

fn some_hash(seed: u8) -> nit::hash::Hash {
    let mut key = [0u8; 20];
    for (i, b) in key.iter_mut().enumerate() {
        *b = seed.wrapping_add(i as u8);
    }
    nit::hash::Hash(key)
}

fn index_of(entries: Vec<IndexEntry>) -> Index {
    let header = IndexHeader {
        signature: INDEX_SIGNATURE,
        version: INDEX_VERSION,
        num_entries: entries.len() as u32,
    };
    Index { header, entries }
}

#[test]
fn encode_decode_round_trip() {
    let entries = vec![
        IndexEntry::create(some_hash(1), "main.c", some_stat()),
        IndexEntry::create(some_hash(2), "src/lib.rs", some_stat()),
        IndexEntry::create(some_hash(3), "a", some_stat()),
    ];
    let index = index_of(entries);

    let bytes = index.to_bytes();
    let decoded = Index::decode(&bytes).unwrap();

    assert_eq!(decoded, index);
}

#[test]
fn decode_encode_is_byte_identical() {
    let index = index_of(vec![IndexEntry::create(some_hash(9), "x/y/z.txt", some_stat())]);
    let bytes = index.to_bytes();

    let again = Index::decode(&bytes).unwrap().to_bytes();

    assert_eq!(again, bytes);
}

#[test]
fn corrupt_signature_is_format_error() {
    let index = index_of(vec![IndexEntry::create(some_hash(5), "main.c", some_stat())]);
    let mut bytes = index.to_bytes();
    bytes[0] = b'X';

    assert_eq!(Index::decode(&bytes), Err(NitError::Format));
}

#[test]
fn unsupported_version_is_format_error() {
    let index = index_of(vec![IndexEntry::create(some_hash(5), "main.c", some_stat())]);
    let mut bytes = index.to_bytes();
    bytes[7] = 3;

    assert_eq!(Index::decode(&bytes), Err(NitError::Format));
}

#[test]
fn truncated_entry_is_format_error() {
    let index = index_of(vec![IndexEntry::create(some_hash(5), "main.c", some_stat())]);
    let bytes = index.to_bytes();

    assert_eq!(Index::decode(&bytes[..bytes.len() - 9]), Err(NitError::Format));
    assert_eq!(Index::decode(&bytes[..11]), Err(NitError::Format));
    assert_eq!(Index::decode(&bytes[..30]), Err(NitError::Format));
}

#[test]
fn non_utf8_name_is_encoding_error() {
    let mut bytes = Vec::new();
    bytes.extend_from_slice(&INDEX_SIGNATURE.to_be_bytes());
    bytes.extend_from_slice(&INDEX_VERSION.to_be_bytes());
    bytes.extend_from_slice(&1u32.to_be_bytes());
    for _ in 0..10 {
        bytes.extend_from_slice(&0u32.to_be_bytes());
    }
    bytes.extend_from_slice(&[0u8; 20]);
    bytes.extend_from_slice(&1u16.to_be_bytes());
    bytes.push(0xff);
    bytes.extend_from_slice(&[0u8; 1]);

    assert_eq!(Index::decode(&bytes), Err(NitError::Encoding));
}

#[test]
fn entry_length_is_padded_to_multiple_of_eight() {
    for name in ["a", "ab", "abc", "abcdefgh", "abcdefghi"] {
        let index = index_of(vec![IndexEntry::create(some_hash(7), name, some_stat())]);
        let bytes = index.to_bytes();
        let entry_len = bytes.len() - 12;
        assert!(entry_len >= 62 + name.len() + 1);
        assert!(entry_len <= 62 + name.len() + 8);
        assert_eq!((entry_len - 56) % 8, 0);
    }
}

#[test]
fn entry_fields_read_back() {
    let entry = IndexEntry::create(some_hash(4), "main.c", some_stat());

    assert_eq!(entry.name_len(), 6);
    assert_eq!(IndexEntry::name_len_from_flags(entry.flags), 6);
    assert_eq!(entry.object_type(), 0b1000);
    assert_eq!(entry.permission(), 0o644);
    assert_eq!(entry.mode, 33188);
    assert_eq!(entry.key, some_hash(4));
}

#[test]
fn read_header_reads_three_words() {
    let index = index_of(Vec::new());
    let bytes = index.to_bytes();
    let header = Index::read_header(&bytes).unwrap();
    assert_eq!(header, index.header);
    assert_eq!(Index::read_header(&bytes[..5]), Err(NitError::Format));
}

#[test]
fn read_entries_reads_exactly_count() {
    let index = index_of(vec![
        IndexEntry::create(some_hash(1), "one", some_stat()),
        IndexEntry::create(some_hash(2), "two", some_stat()),
    ]);
    let bytes = index.to_bytes();
    let entries = Index::read_entries(&bytes[12..], 2).unwrap();
    assert_eq!(entries, index.entries);
}

#[test]
fn flat_tree_bytes_lists_entries_in_order() {
    let h = some_hash(6);
    let index = index_of(vec![IndexEntry::create(h, "main.c", some_stat())]);

    let bytes = index.to_tree_bytes();

    let mut expected = b"100644 main.c\0".to_vec();
    expected.extend_from_slice(&h.0);
    assert_eq!(bytes, expected);
}
