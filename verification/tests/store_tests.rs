use nit::compress::{compress, compress_content, decompress};
use nit::object::{hash_blob, ObjectKind};
use nit::store::{write_tree, ObjectStore};

#[test]
fn write_returns_the_object_hash() {
    let mut store = ObjectStore::new();
    let payload = b"what is up, doc?".to_vec();

    let h = store.write(ObjectKind::Blob, &payload).unwrap();

    assert_eq!(h, hash_blob(payload));
    assert_eq!(store.len(), 1);
    assert!(store.contains(&h));
}

#[test]
fn second_write_of_same_content_is_skipped() {
    let mut store = ObjectStore::new();
    let payload = b"same bytes".to_vec();

    let first = store.write(ObjectKind::Blob, &payload).unwrap();
    let objects_after_first = store.objects.clone();
    let second = store.write(ObjectKind::Blob, &payload).unwrap();

    assert_eq!(first, second);
    assert_eq!(store.len(), 1);
    assert_eq!(store.objects, objects_after_first);
}

#[test]
fn different_content_appends_new_object() {
    let mut store = ObjectStore::new();
    let a = store.write(ObjectKind::Blob, b"aaa").unwrap();
    let b = store.write(ObjectKind::Blob, b"bbb").unwrap();

    assert_ne!(a, b);
    assert_eq!(store.len(), 2);
    assert!(store.contains(&a));
    assert!(store.contains(&b));
}

#[test]
fn same_payload_under_other_kind_is_a_new_object() {
    let mut store = ObjectStore::new();
    let blob = store.write(ObjectKind::Blob, b"dual").unwrap();
    let tree = store.write(ObjectKind::Tree, b"dual").unwrap();

    assert_ne!(blob, tree);
    assert_eq!(store.len(), 2);
}

#[test]
fn stored_bytes_decompress_to_the_frame() {
    let mut store = ObjectStore::new();
    store.write(ObjectKind::Blob, b"roundtrip").unwrap();

    let frame = decompress(&store.objects[0].1).unwrap();

    assert_eq!(frame, b"blob 9\0roundtrip".to_vec());
}

#[test]
fn write_tree_frames_as_tree() {
    let mut store = ObjectStore::new();
    let payload = b"040000 src\0aaaaaaaaaaaaaaaaaaaa".to_vec();

    let h = write_tree(payload.clone(), &mut store).unwrap();

    let frame = decompress(&store.objects[0].1).unwrap();
    let mut expected = format!("tree {}\0", payload.len()).into_bytes();
    expected.extend_from_slice(&payload);
    assert_eq!(frame, expected);
    assert_eq!(h, nit::object::hash_tree(payload));
}

#[test]
fn compress_decompress_round_trip() {
    let data = b"some content long enough to squeeze a little".to_vec();

    let packed = compress(&data).unwrap();
    assert_eq!(decompress(&packed).unwrap(), data);

    let framed = compress_content(b"blob 3\0", b"abc").unwrap();
    assert_eq!(decompress(&framed).unwrap(), b"blob 3\0abc".to_vec());
}

#[test]
fn garbage_does_not_decompress() {
    assert_eq!(
        decompress(b"definitely not a zlib stream"),
        Err(nit::error::NitError::Io)
    );
}
