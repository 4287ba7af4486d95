use nit::object::{hash_blob, hash_commit, hash_object, hash_tree, ObjectKind};

#[test]
fn hash_blob_object() {
    let content = String::from("what is up, doc?").into_bytes();

    let hashed = hash_blob(content).to_hex();

    let expected = String::from("bd9dbf5aae1a3862dd1526723246b20206e5fc37");
    assert_eq!(hashed, expected);
}

#[test]
fn hash_empty_tree_object() {
    let hashed = hash_tree(Vec::new()).to_hex();

    assert_eq!(hashed, "4b825dc642cb6eb9a060e54bf8d69288fbee4904");
}

#[test]
fn hash_commit_frames_with_commit_header() {
    let content = b"x".to_vec();
    let framed = nit::hash::Hash::from_bytes(b"commit 1\0", b"x");
    assert_eq!(hash_commit(content), framed);
}

#[test]
fn hash_object_dispatches_on_kind() {
    let content = b"payload".to_vec();
    assert_eq!(
        hash_object(ObjectKind::Blob, content.clone()),
        hash_blob(content.clone())
    );
    assert_eq!(
        hash_object(ObjectKind::Tree, content.clone()),
        hash_tree(content.clone())
    );
    assert_eq!(
        hash_object(ObjectKind::Commit, content.clone()),
        hash_commit(content)
    );
}

#[test]
fn mode_bits_per_kind() {
    assert_eq!(ObjectKind::Blob.to_mode_bits(), 100644);
    assert_eq!(ObjectKind::Tree.to_mode_bits(), 40000);
    assert_eq!(ObjectKind::Commit.to_mode_bits(), 0);
}
