use nit::command::{Command, CommandError};
use nit::commit::{commit, timestamp_to_date, write_commit, Commit, Stamp};
use nit::compress::decompress;
use nit::directory::remove_leading_dot_slash;
use nit::object::hash_commit;
use nit::store::ObjectStore;

fn ada(timestamp: u32) -> Stamp {
    Stamp {
        name: b"Ada Lovelace".to_vec(),
        email: b"ada@example.org".to_vec(),
        timestamp,
    }
}

#[test]
fn commit_text_renders_every_line() {
    let tree = nit::hash::Hash::from_hex("b03318345a1f9d098d0bfa44d6111818ab701fbe").unwrap();
    let parent = nit::hash::Hash::from_hex("f60b322c7351b08514fceed6f69102138ab420e7").unwrap();
    let c = Commit::create(
        tree,
        Some(parent),
        ada(1764365370),
        ada(1764365370),
        b"it works!".to_vec(),
    );

    let expected = "tree b03318345a1f9d098d0bfa44d6111818ab701fbe
parent f60b322c7351b08514fceed6f69102138ab420e7
author Ada Lovelace <ada@example.org> 1764365370 +0100
committer Ada Lovelace <ada@example.org> 1764365370 +0100

it works!\n";
    assert_eq!(c.to_bytes(), expected.as_bytes().to_vec());
}

#[test]
fn commit_text_without_parent_has_no_parent_line() {
    let tree = nit::hash::Hash::from_hex("b03318345a1f9d098d0bfa44d6111818ab701fbe").unwrap();
    let c = Commit::create(tree, None, ada(5), ada(5), b"first".to_vec());

    let expected = "tree b03318345a1f9d098d0bfa44d6111818ab701fbe
author Ada Lovelace <ada@example.org> 5 +0100
committer Ada Lovelace <ada@example.org> 5 +0100

first\n";
    assert_eq!(c.to_bytes(), expected.as_bytes().to_vec());
}

#[test]
fn commit_read_recovers_the_fields() {
    let tree = nit::hash::Hash::from_hex("b03318345a1f9d098d0bfa44d6111818ab701fbe").unwrap();
    let parent = nit::hash::Hash::from_hex("c631313b6cc3a747eac28cdb26802678a96b870b").unwrap();
    let written = Commit::create(
        tree,
        Some(parent),
        ada(1764365370),
        ada(1764365371),
        b"create blob from file".to_vec(),
    );
    let mut framed = b"commit 999\0".to_vec();
    framed.extend_from_slice(&written.to_bytes());

    let read = Commit::read(&framed).unwrap();

    assert_eq!(read.tree, written.tree);
    assert_eq!(read.author, written.author);
    assert_eq!(read.committer, written.committer);
    assert_eq!(read.author.name, b"Ada Lovelace".to_vec());
    assert_eq!(read.parent.unwrap().to_hex(), "c631313b6cc3a747eac28cdb26802678a96b870b");
    assert_eq!(read.message, b"create blob from file\n".to_vec());
}

#[test]
fn commit_read_rejects_malformed_text() {
    assert_eq!(Commit::read(b""), None);
    assert_eq!(Commit::read(b"commit 4\0hi"), None);
    assert_eq!(Commit::read(b"commit 9\0tree zz"), None);
    let only_tree = b"commit 50\0tree b03318345a1f9d098d0bfa44d6111818ab701fbe";
    assert_eq!(Commit::read(only_tree), None);
}

#[test]
fn take_stamp_splits_name_email_and_seconds() {
    let s = Commit::take_stamp(b"Ada Lovelace <ada@example.org> 1764365370 +0100").unwrap();
    assert_eq!(s.name, b"Ada Lovelace".to_vec());
    assert_eq!(s.email, b"ada@example.org".to_vec());
    assert_eq!(s.timestamp, 1764365370);

    assert_eq!(Commit::take_stamp(b"no brackets here"), None);
    assert_eq!(Commit::take_stamp(b"Ada <a@b> notanumber +0100"), None);
}

#[test]
fn write_commit_stores_the_framed_text() {
    let tree = nit::hash::Hash::from_hex("b03318345a1f9d098d0bfa44d6111818ab701fbe").unwrap();
    let c = Commit::create(tree, None, ada(7), ada(7), b"msg".to_vec());
    let text = c.to_bytes();
    let mut store = ObjectStore::new();

    let h = write_commit(c, &mut store).unwrap();

    assert_eq!(h, hash_commit(text.clone()));
    let frame = decompress(&store.objects[0].1).unwrap();
    let mut expected = format!("commit {}\0", text.len()).into_bytes();
    expected.extend_from_slice(&text);
    assert_eq!(frame, expected);
}

#[test]
fn commit_builds_and_writes_in_one_step() {
    let tree = nit::hash::Hash::from_hex("b03318345a1f9d098d0bfa44d6111818ab701fbe").unwrap();
    let parent = nit::hash::Hash::from_hex("f60b322c7351b08514fceed6f69102138ab420e7").unwrap();
    let mut store = ObjectStore::new();

    let h = commit(
        tree,
        b"msg".to_vec(),
        Some(parent),
        ada(7),
        ada(7),
        &mut store,
    )
    .unwrap();

    let by_hand = Commit::create(tree, Some(parent), ada(7), ada(7), b"msg".to_vec());
    assert_eq!(h, hash_commit(by_hand.to_bytes()));
    assert_eq!(store.len(), 1);
}

#[test]
fn timestamp_to_date_renders_utc() {
    assert_eq!(timestamp_to_date(0, 0), "1970-01-01 00:00:00 UTC");
    assert_eq!(timestamp_to_date(1764365370, 0), timestamp_to_date(1764365370, 0));
    assert_eq!(timestamp_to_date(0, 2_000_000_000), "");
}

#[test]
fn parse_accepts_add_and_commit_in_any_case() {
    let args = |a: &str, b: &str| vec!["nit".to_string(), a.to_string(), b.to_string()];

    assert_eq!(
        Command::parse(args("add", "src")),
        Ok(Command::Add("src".to_string()))
    );
    assert_eq!(
        Command::parse(args("ADD", "src")),
        Ok(Command::Add("src".to_string()))
    );
    assert_eq!(
        Command::parse(args("Commit", "a message")),
        Ok(Command::Commit("a message".to_string()))
    );
}

#[test]
fn parse_rejects_bad_argument_lists() {
    assert_eq!(
        Command::parse(vec!["nit".to_string()]),
        Err(CommandError::MissingArguments)
    );
    assert_eq!(
        Command::parse(vec!["nit".to_string(), "add".to_string()]),
        Err(CommandError::MissingArguments)
    );
    assert_eq!(
        Command::parse(vec![
            "nit".to_string(),
            "status".to_string(),
            "x".to_string()
        ]),
        Err(CommandError::UnknownCommand)
    );
}

#[test]
fn leading_dot_slash_is_fully_trimmed() {
    assert_eq!(remove_leading_dot_slash(b"./src/a.c".to_vec()), b"src/a.c".to_vec());
    assert_eq!(remove_leading_dot_slash(b"src/a.c".to_vec()), b"src/a.c".to_vec());
    assert_eq!(remove_leading_dot_slash(b"././x".to_vec()), b"x".to_vec());
    assert_eq!(remove_leading_dot_slash(b"./././a/b".to_vec()), b"a/b".to_vec());
    assert_eq!(remove_leading_dot_slash(b".".to_vec()), b"".to_vec());
    assert_eq!(remove_leading_dot_slash(b"./.".to_vec()), b"".to_vec());
    let once = remove_leading_dot_slash(b"././deep/./x".to_vec());
    assert_eq!(remove_leading_dot_slash(once.clone()), once);
}
