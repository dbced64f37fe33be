use skillbasin::content_hash::{digest_hex, hash_entries, hash_message_bytes, is_ignored_name, WalkEntry};

fn file(rel: &str, body: &str) -> WalkEntry {
    WalkEntry { relative: rel.to_string(), contents: Some(body.as_bytes().to_vec()) }
}

fn dir(rel: &str) -> WalkEntry {
    WalkEntry { relative: rel.to_string(), contents: None }
}

#[test]
fn ignored_names_are_the_vcs_and_os_droppings() {
    for n in [".git", ".DS_Store", "Thumbs.db", ".gitignore"] {
        assert!(is_ignored_name(n));
    }
    assert!(!is_ignored_name("SKILL.md"));
    assert!(!is_ignored_name(".github"));
}

#[test]
fn message_normalizes_separators_and_appends_file_bytes() {
    let entries = vec![dir(""), dir("assets"), file("assets\\a.txt", "x"), file("SKILL.md", "body")];
    assert_eq!(hash_message_bytes(&entries), b"assetsassets/a.txtxSKILL.mdbody".to_vec());
}

#[test]
fn hash_is_sha256_hex_of_the_message() {
    // SHA-256 of the empty message.
    assert_eq!(hash_entries(&vec![]), "e3b0c44298fc1c149afbf4c8996fb92427ae41e4649b934ca495991b7852b855");
    // SHA-256 of "abc".
    assert_eq!(hash_entries(&vec![file("abc", "")]), "ba7816bf8f01cfea414140de5dae2223b00361a396177a9cb410ff61f20015ad");
}

#[test]
fn same_content_hashes_the_same_whatever_the_separators() {
    let a = vec![dir("assets"), file("assets/a.txt", "x")];
    let b = vec![dir("assets"), file("assets\\a.txt", "x")];
    assert_eq!(hash_entries(&a), hash_entries(&b));
    assert_ne!(hash_entries(&a), hash_entries(&vec![dir("assets"), file("assets/a.txt", "y")]));
}

#[test]
fn digests_print_as_lowercase_hex() {
    assert_eq!(digest_hex(&vec![0x00, 0x0f, 0xab, 0xff]), "000fabff");
    assert_eq!(digest_hex(&vec![]), "");
}
