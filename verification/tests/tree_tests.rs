use nit::compress::decompress;
use nit::error::NitError;
use nit::index::{FileStat, Index, IndexEntry, IndexHeader, INDEX_SIGNATURE, INDEX_VERSION};
use nit::object::{hash_tree, ObjectKind};
use nit::store::ObjectStore;
use nit::tree::{write_cache, Tree, TreeCache, TreeEntry};

fn some_stat() -> FileStat {
    FileStat {
        ctime_sec: 1,
        ctime_nano: 2,
        mtime_sec: 3,
        mtime_nano: 4,
        dev: 5,
        ino: 6,
        uid: 7,
        gid: 8,
        size: 9,
    }
}

fn some_hash(seed: u8) -> nit::hash::Hash {
    let mut key = [0u8; 20];
    for (i, b) in key.iter_mut().enumerate() {
        *b = seed.wrapping_mul(31).wrapping_add(i as u8);
    }
    nit::hash::Hash(key)
}

fn index_of(entries: Vec<IndexEntry>) -> Index {
    let header = IndexHeader {
        signature: INDEX_SIGNATURE,
        version: INDEX_VERSION,
        num_entries: entries.len() as u32,
    };
    Index { header, entries }
}

fn stored_payload(store: &ObjectStore, at: usize, kind_header: &[u8]) -> Vec<u8> {
    let frame = decompress(&store.objects[at].1).unwrap();
    assert!(frame.starts_with(kind_header));
    frame[kind_header.len()..].to_vec()
}

#[test]
fn tree_entry_record_bytes() {
    let h = some_hash(1);
    let entry = TreeEntry::new(h, ObjectKind::Blob, b"main.c".to_vec());

    let mut expected = b"100644 main.c\0".to_vec();
    expected.extend_from_slice(&h.0);
    assert_eq!(entry.as_bytes(), expected);

    let dir = TreeEntry::new(h, ObjectKind::Tree, b"src".to_vec());
    let mut expected_dir = b"040000 src\0".to_vec();
    expected_dir.extend_from_slice(&h.0);
    assert_eq!(dir.as_bytes(), expected_dir);
}

#[test]
fn single_file_tree_payload() {
    let h = some_hash(2);
    let index = index_of(vec![IndexEntry::create(h, "main.c", some_stat())]);
    let cache = TreeCache::from_index(index).unwrap();
    let mut store = ObjectStore::new();

    let root = write_cache(&cache, &mut store).unwrap();

    let mut expected_payload = b"100644 main.c\0".to_vec();
    expected_payload.extend_from_slice(&h.0);
    assert_eq!(store.len(), 1);
    assert_eq!(
        stored_payload(&store, 0, format!("tree {}\0", expected_payload.len()).as_bytes()),
        expected_payload
    );
    assert_eq!(root, hash_tree(expected_payload));
}

#[test]
fn nested_path_builds_subtree_before_root() {
    let h1 = some_hash(3);
    let h2 = some_hash(4);
    let index = index_of(vec![
        IndexEntry::create(h1, "src/a.txt", some_stat()),
        IndexEntry::create(h2, "src/b.txt", some_stat()),
    ]);
    let cache = TreeCache::from_index(index).unwrap();
    let mut store = ObjectStore::new();

    let root = write_cache(&cache, &mut store).unwrap();

    let mut sub_payload = b"100644 a.txt\0".to_vec();
    sub_payload.extend_from_slice(&h1.0);
    sub_payload.extend_from_slice(b"100644 b.txt\0");
    sub_payload.extend_from_slice(&h2.0);
    let sub_hash = hash_tree(sub_payload.clone());

    let mut root_payload = b"040000 src\0".to_vec();
    root_payload.extend_from_slice(&sub_hash.0);

    assert_eq!(store.len(), 2);
    assert_eq!(store.objects[0].0, sub_hash);
    assert_eq!(
        stored_payload(&store, 0, format!("tree {}\0", sub_payload.len()).as_bytes()),
        sub_payload
    );
    assert_eq!(
        stored_payload(&store, 1, format!("tree {}\0", root_payload.len()).as_bytes()),
        root_payload
    );
    assert_eq!(root, hash_tree(root_payload));
}

#[test]
fn insertion_order_does_not_change_tree() {
    let ha = some_hash(5);
    let hb = some_hash(6);
    let forward = index_of(vec![
        IndexEntry::create(ha, "a", some_stat()),
        IndexEntry::create(hb, "b", some_stat()),
    ]);
    let reversed = index_of(vec![
        IndexEntry::create(hb, "b", some_stat()),
        IndexEntry::create(ha, "a", some_stat()),
    ]);

    let mut store_f = ObjectStore::new();
    let root_f = write_cache(&TreeCache::from_index(forward).unwrap(), &mut store_f).unwrap();
    let mut store_r = ObjectStore::new();
    let root_r = write_cache(&TreeCache::from_index(reversed).unwrap(), &mut store_r).unwrap();

    assert_eq!(root_f, root_r);
    assert_eq!(store_f.objects[0].1, store_r.objects[0].1);

    let mut expected_payload = b"100644 a\0".to_vec();
    expected_payload.extend_from_slice(&ha.0);
    expected_payload.extend_from_slice(b"100644 b\0");
    expected_payload.extend_from_slice(&hb.0);
    assert_eq!(root_f, hash_tree(expected_payload));
}

#[test]
fn invalid_path_segments_are_format_errors() {
    for bad in ["", "/a", "a/", "a//b", "/"] {
        let index = index_of(vec![IndexEntry::create(some_hash(7), bad, some_stat())]);
        assert_eq!(TreeCache::from_index(index).unwrap_err(), NitError::Format, "path {:?}", bad);
    }
}

#[test]
fn cache_routes_by_first_segment() {
    let mut cache = TreeCache::new();
    cache.add_tree(TreeEntry::new(some_hash(8), ObjectKind::Blob, b"deep/er/f.txt".to_vec()));
    cache.add_blob(TreeEntry::new(some_hash(9), ObjectKind::Blob, b"top.txt".to_vec()));

    assert_eq!(cache.blobs.len(), 1);
    assert_eq!(cache.blobs[0].name, b"top.txt".to_vec());
    assert_eq!(cache.trees.len(), 1);
    assert_eq!(cache.trees[0].0, b"deep".to_vec());
    let deeper = &cache.trees[0].1;
    assert_eq!(deeper.trees.len(), 1);
    assert_eq!(deeper.trees[0].0, b"er".to_vec());
    assert_eq!(deeper.trees[0].1.blobs[0].name, b"f.txt".to_vec());
}

#[test]
fn get_or_create_reuses_existing_subtree() {
    let mut cache = TreeCache::new();
    let first = cache.get_or_create_tree_mut(b"src".to_vec());
    let second = cache.get_or_create_tree_mut(b"src".to_vec());
    let other = cache.get_or_create_tree_mut(b"docs".to_vec());

    assert_eq!(first, second);
    assert_ne!(first, other);
    assert_eq!(cache.trees.len(), 2);
}

#[test]
fn tree_read_decodes_records() {
    let h = some_hash(10);
    let mut payload = b"100644 main.c\0".to_vec();
    payload.extend_from_slice(&h.0);
    payload.extend_from_slice(b"40000 src\0");
    payload.extend_from_slice(&h.0);
    let mut framed = format!("tree {}\0", payload.len()).into_bytes();
    framed.extend_from_slice(&payload);

    let tree = Tree::_read(&framed);

    assert_eq!(tree.entries.len(), 2);
    assert_eq!(tree.entries[0].name, b"main.c".to_vec());
    assert_eq!(tree.entries[0].mode, ObjectKind::Blob);
    assert_eq!(tree.entries[0].key, h);
    assert_eq!(tree.entries[1].name, b"src".to_vec());
    assert_eq!(tree.entries[1].mode, ObjectKind::Tree);
}

#[test]
fn tree_to_bytes_concatenates_records() {
    let h = some_hash(11);
    let tree = Tree {
        entries: vec![
            TreeEntry::new(h, ObjectKind::Blob, b"a".to_vec()),
            TreeEntry::new(h, ObjectKind::Tree, b"b".to_vec()),
        ],
    };

    let mut expected = b"100644 a\0".to_vec();
    expected.extend_from_slice(&h.0);
    expected.extend_from_slice(b"040000 b\0");
    expected.extend_from_slice(&h.0);
    assert_eq!(tree._to_bytes(), expected);
}
