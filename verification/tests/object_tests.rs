use rusty_git::codec::decompress;
use rusty_git::digest::Digest;
use rusty_git::error::Error;
use rusty_git::layout::Layout;
use rusty_git::object::{Object, ObjectKind, ObjectStore};

const HELLO: &str = "aaf4c61ddcc5e8a2dabede0f3b482cd9aea9434d";

#[test]
fn put_then_get_returns_the_content() {
    let mut store = ObjectStore::new();
    let content = b"hello".to_vec();
    let digest = store.put(ObjectKind::Blob, &content).unwrap();
    assert_eq!(digest.hex, HELLO);
    assert_eq!(store.get(&digest).unwrap(), content);
}

#[test]
fn put_then_get_round_trips_binary_and_empty_content() {
    let mut store = ObjectStore::new();
    let binary: Vec<u8> = (0..=255u8).chain(0..=255u8).collect();
    let d = store.put(ObjectKind::Blob, &binary).unwrap();
    assert_eq!(store.get(&d).unwrap(), binary);
    let e = store.put(ObjectKind::Blob, &[]).unwrap();
    assert_eq!(e.hex, "da39a3ee5e6b4b0d3255bfef95601890afd80709");
    assert_eq!(store.get(&e).unwrap(), Vec::<u8>::new());
}

#[test]
fn equal_content_has_equal_digest() {
    let mut one = ObjectStore::new();
    let mut two = ObjectStore::new();
    two.put(ObjectKind::Blob, b"something else").unwrap();
    let a = one.put(ObjectKind::Blob, b"same bytes").unwrap();
    let b = two.put(ObjectKind::Blob, b"same bytes").unwrap();
    assert_eq!(a, b);
    let c = two.put(ObjectKind::Blob, b"other bytes").unwrap();
    assert_ne!(a, c);
}

#[test]
fn storing_twice_keeps_one_object() {
    let mut store = ObjectStore::new();
    let a = store.put(ObjectKind::Blob, b"hello").unwrap();
    let b = store.put(ObjectKind::Blob, b"hello").unwrap();
    assert_eq!(a, b);
    assert_eq!(store.len(), 1);
    assert_eq!(store.get(&a).unwrap(), b"hello".to_vec());
}

#[test]
fn get_of_unknown_digest_fails() {
    let mut store = ObjectStore::new();
    store.put(ObjectKind::Blob, b"hello").unwrap();
    let unknown = Digest::new("7c211433f02071597741e6ff5a8ea34789abbf43".to_string());
    assert_eq!(store.get(&unknown), Err(Error::ObjectNotFound));
    assert!(!store.contains(&unknown));
}

#[test]
fn objects_are_kept_compressed_with_their_kind() {
    let mut store = ObjectStore::new();
    let content = vec![b'a'; 500];
    let digest = store.put(ObjectKind::Tree, &content).unwrap();
    let stored = store.stored(&digest).unwrap();
    assert_eq!(stored.kind, ObjectKind::Tree);
    assert!(stored.payload.len() < content.len());
    assert_eq!(decompress(&stored.payload).unwrap(), content);
    let (key, object) = store.entry(0).unwrap();
    assert_eq!(key, digest.hex);
    assert_eq!(object, stored);
    assert_eq!(store.entry(1), None);
}

#[test]
fn get_of_corrupt_object_is_an_io_failure() {
    let mut store = ObjectStore::new();
    let object = Object::new(HELLO.to_string());
    object.write(&mut store, ObjectKind::Blob, vec![0xff, 0xff, 0xff, 0xff]);
    assert_eq!(store.get(&Digest::new(HELLO.to_string())), Err(Error::IOFailure));
}

#[test]
fn object_write_replaces_what_was_stored() {
    let mut store = ObjectStore::new();
    let digest = store.put(ObjectKind::Blob, b"hello").unwrap();
    let replacement = rusty_git::codec::compress(b"replaced").unwrap();
    Object::new(digest.hex.clone()).write(&mut store, ObjectKind::Commit, replacement);
    assert_eq!(store.len(), 1);
    assert_eq!(store.get(&digest).unwrap(), b"replaced".to_vec());
    assert_eq!(store.stored(&digest).unwrap().kind, ObjectKind::Commit);
}

#[test]
fn object_path_splits_the_digest_after_two_characters() {
    let object = Object::new(HELLO.to_string());
    assert_eq!(object.sha(), HELLO);
    assert_eq!(object.directory().unwrap(), "aa");
    assert_eq!(object.file_name().unwrap(), "f4c61ddcc5e8a2dabede0f3b482cd9aea9434d");
    assert_eq!(object.file_name().unwrap().len(), 38);
    let layout = Layout::standard();
    assert_eq!(layout.object_dir(&object).unwrap(), ".gitrust/objects/aa");
    assert_eq!(
        layout.object_path(&object).unwrap(),
        ".gitrust/objects/aa/f4c61ddcc5e8a2dabede0f3b482cd9aea9434d"
    );
}

#[test]
fn a_digest_of_fewer_than_two_characters_has_no_path() {
    let layout = Layout::standard();
    for sha in ["", "a"] {
        let object = Object::new(sha.to_string());
        assert_eq!(object.directory(), None);
        assert_eq!(object.file_name(), None);
        assert_eq!(layout.object_dir(&object), None);
        assert_eq!(layout.object_path(&object), None);
    }
    let two = Object::new("é√".to_string());
    assert_eq!(two.directory().unwrap(), "é√");
    assert_eq!(two.file_name().unwrap(), "");
    assert_eq!(layout.object_path(&two).unwrap(), ".gitrust/objects/é√/");
}

#[test]
fn layout_derives_every_path_from_the_repository_directory() {
    let layout = Layout::new("/tmp/repo/.store".to_string());
    assert_eq!(layout.objects_dir(), "/tmp/repo/.store/objects");
    assert_eq!(layout.refs_dir(), "/tmp/repo/.store/refs");
    assert_eq!(layout.index_path(), "/tmp/repo/.store/index");
    assert_eq!(layout.head_path(), "/tmp/repo/.store/HEAD");
    assert_eq!(layout.message_path(), "/tmp/repo/.store/COMMIT_EDITMSG");
    assert_eq!(layout.ref_path("refs/heads/master"), "/tmp/repo/.store/refs/heads/master");
}
