use nit::error::NitError;

#[test]
fn sha1_hash() {
    let input = String::from("The quick brown fox jumps over the lazy dog");

    let hashed = nit::hash::Hash::from_bytes(&[], input.as_bytes()).to_hex();

    let expected = String::from("2fd4e1c67a2d28fced849ee1bb76e7391b93eb12");
    assert_eq!(hashed, expected);
}

#[test]
fn hash_from_hex() {
    let input = "2fd4e1c67a2d28fced849ee1bb76e7391b93eb12";

    let hash = nit::hash::Hash::from_hex(input).unwrap().to_hex();

    let expected = String::from("2fd4e1c67a2d28fced849ee1bb76e7391b93eb12");
    assert_eq!(hash, expected);
}

#[test]
fn hash_from_hex_uppercase() {
    let lower = nit::hash::Hash::from_hex("2fd4e1c67a2d28fced849ee1bb76e7391b93eb12").unwrap();
    let upper = nit::hash::Hash::from_hex("2FD4E1C67A2D28FCED849EE1BB76E7391B93EB12").unwrap();
    assert_eq!(lower, upper);
}

#[test]
fn hash_from_hex_wrong_length() {
    assert_eq!(nit::hash::Hash::from_hex("2fd4e1"), Err(NitError::Format));
    assert_eq!(nit::hash::Hash::from_hex(""), Err(NitError::Format));
    assert_eq!(
        nit::hash::Hash::from_hex("2fd4e1c67a2d28fced849ee1bb76e7391b93eb12ab"),
        Err(NitError::Format)
    );
}

#[test]
fn hash_from_hex_bad_digit() {
    assert_eq!(
        nit::hash::Hash::from_hex("2fd4e1c67a2d28fced849ee1bb76e7391b93eb1g"),
        Err(NitError::Format)
    );
    assert_eq!(
        nit::hash::Hash::from_hex("zfd4e1c67a2d28fced849ee1bb76e7391b93eb12"),
        Err(NitError::Format)
    );
}

#[test]
fn hash_to_object_path_splits_after_one_byte() {
    let hash = nit::hash::Hash::from_hex("2fd4e1c67a2d28fced849ee1bb76e7391b93eb12").unwrap();
    assert_eq!(
        hash.to_object_path(),
        "objects/2f/d4e1c67a2d28fced849ee1bb76e7391b93eb12"
    );
}

#[test]
fn single_bit_flip_changes_hash() {
    let header = b"blob 3\0";
    let payload = vec![1u8, 2, 3];
    let mut flipped = payload.clone();
    flipped[1] ^= 0x01;

    let a = nit::hash::Hash::from_bytes(header, &payload);
    let b = nit::hash::Hash::from_bytes(header, &flipped);
    assert_ne!(a, b);
}

#[test]
fn identical_inputs_hash_identically() {
    let a = nit::hash::Hash::from_bytes(b"tree 2\0", b"hi");
    let b = nit::hash::Hash::from_bytes(b"tree 2\0", b"hi");
    assert_eq!(a, b);
}

#[test]
fn from_hex_bytes_matches_from_hex() {
    let text = "2fd4e1c67a2d28fced849ee1bb76e7391b93eb12";
    let via_str = nit::hash::Hash::from_hex(text).unwrap();
    let via_bytes = nit::hash::Hash::from_hex_bytes(text.as_bytes()).unwrap();
    assert_eq!(via_str, via_bytes);
    assert_eq!(nit::hash::Hash::from_hex_bytes(b"zz"), None);
}
