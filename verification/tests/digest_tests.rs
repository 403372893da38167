use rusty_git::codec::{compress, decompress};
use rusty_git::digest::{digest_content, generate_sha1, to_hex, Digest};
use rusty_git::error::Error;

#[test]
fn sha1_of_hello_world() {
    let d = generate_sha1(b"hello world");
    assert_eq!(d.hex, "2aae6c35c94fcfb415dbe95f408b9ce91ee846ed");
    assert!(d.is_wellformed());
}

#[test]
fn digest_content_hashes_what_can_be_hashed() {
    assert_eq!(digest_content(b"hello world"), Some(generate_sha1(b"hello world")));
    assert_eq!(
        digest_content(b"hello").unwrap().hex,
        "aaf4c61ddcc5e8a2dabede0f3b482cd9aea9434d"
    );
}

#[test]
fn sha1_of_empty_input() {
    let d = generate_sha1(b"");
    assert_eq!(d.hex, "da39a3ee5e6b4b0d3255bfef95601890afd80709");
}

#[test]
fn hex_encoding_is_lowercase_and_padded() {
    assert_eq!(to_hex(&[0x00, 0x0f, 0xa0, 0xff]), "000fa0ff");
    assert_eq!(to_hex(&[]), "");
}

#[test]
fn wellformed_digest_is_forty_hex_characters() {
    assert!(!Digest::new("abc".to_string()).is_wellformed());
    assert!(!Digest::new("2AAE6C35C94FCFB415DBE95F408B9CE91EE846ED".to_string()).is_wellformed());
    assert!(Digest::new("2aae6c35c94fcfb415dbe95f408b9ce91ee846ed".to_string()).is_wellformed());
}

#[test]
fn compress_then_decompress_restores_content() {
    let content = b"hello hello hello hello hello".to_vec();
    let packed = compress(&content).unwrap();
    assert_ne!(packed, content);
    assert_eq!(decompress(&packed).unwrap(), content);
}

#[test]
fn decompress_rejects_corrupt_stream() {
    assert_eq!(decompress(&[0xff, 0xff, 0xff, 0xff]), Err(Error::IOFailure));
}
