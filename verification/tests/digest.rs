use tgit::digest::{can_digest, digest};
use tgit::types::Blob;

#[test]
fn digest_of_hello() {
    assert_eq!(digest(b"hello"), "aaf4c61ddcc5e8a2dabede0f3b482cd9aea9434d");
}

#[test]
fn digest_of_hello_world() {
    assert_eq!(digest(b"hello world"), "2aae6c35c94fcfb415dbe95f408b9ce91ee846ed");
}

#[test]
fn digest_of_abc() {
    assert_eq!(digest(b"abc"), "a9993e364706816aba3e25717850c26c9cd0d89d");
}

#[test]
fn digest_of_nothing() {
    assert_eq!(digest(b""), "da39a3ee5e6b4b0d3255bfef95601890afd80709");
}

#[test]
fn digest_is_deterministic() {
    let data = vec![0u8, 1, 2, 3, 254, 255];
    let first = digest(&data);
    let second = digest(&data);
    assert_eq!(first, second);
    let copy = data.clone();
    assert_eq!(digest(&copy), first);
}

#[test]
fn digest_tells_contents_apart() {
    assert_ne!(digest(b"hello"), digest(b"hello world"));
    assert_ne!(digest(b"a"), digest(b"b"));
    assert_ne!(digest(b""), digest(b"\0"));
}

#[test]
fn digest_is_forty_lowercase_hex_characters() {
    for data in [&b""[..], &b"hello"[..], &[0xffu8; 1000][..]] {
        let d = digest(data);
        assert_eq!(d.len(), 40);
        assert!(d.chars().all(|c| matches!(c, '0'..='9' | 'a'..='f')));
    }
}

#[test]
fn digest_takes_ordinary_inputs() {
    assert!(can_digest(b""));
    assert!(can_digest(&[7u8; 4096]));
}

#[test]
fn blob_holds_contents_and_their_digest() {
    let blob = Blob::from_bytes(b"hello".to_vec());
    assert_eq!(blob.data, b"hello".to_vec());
    assert_eq!(blob.hash, "aaf4c61ddcc5e8a2dabede0f3b482cd9aea9434d");
    assert_eq!(blob.hash, digest(&blob.data));
}
