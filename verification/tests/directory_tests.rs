use nit::directory::Directory;

#[test]
fn get_directory_name_from_entries() {
}

#[test]
fn directory_listing_holds_files_and_subdirectories() {
    let listing = Directory {
        files: vec!["./examples/blob.c".to_string()],
        directories: vec![Directory {
            files: vec!["./examples/sub/file".to_string()],
            directories: Vec::new(),
        }],
    };

    assert_eq!(listing.files.len(), 1);
    assert_eq!(listing.directories[0].files[0], "./examples/sub/file");
}
