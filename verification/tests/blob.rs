use gitobj::object::blob::Blob;
use gitobj::object::GitObject;

#[test]
fn blob_keeps_bytes_verbatim() {
    let bytes = b"line one\r\nline\0two\n\0\xff\xfe";
    let blob = Blob::from(bytes).unwrap();
    assert_eq!(blob.data, bytes.to_vec());
    assert_eq!(blob.encode(), bytes.to_vec());
}

#[test]
fn blob_decode_always_succeeds() {
    assert_eq!(Blob::from(b""), Some(Blob { data: vec![] }));
    assert_eq!(Blob::from(&[0u8]), Some(Blob { data: vec![0] }));
    let all: Vec<u8> = (0..=255u8).collect();
    assert_eq!(Blob::from(&all), Some(Blob { data: all.clone() }));
}

#[test]
fn blob_round_trip() {
    for data in [b"".to_vec(), b"hello".to_vec(), vec![0, 0, 0], (0..=255u8).collect()] {
        let blob = Blob { data: data.clone() };
        assert_eq!(Blob::from(&blob.encode()), Some(blob.clone()));
        assert_eq!(GitObject::new(&blob.as_bytes()), Some(GitObject::Blob(blob)));
    }
}

#[test]
fn blob_canonical_bytes() {
    assert_eq!(Blob { data: b"hello".to_vec() }.as_bytes(), b"blob 5\0hello".to_vec());
    assert_eq!(Blob { data: vec![] }.as_bytes(), b"blob 0\0".to_vec());
    let long = Blob { data: vec![b'x'; 1234] };
    let bytes = long.as_bytes();
    assert_eq!(&bytes[..10], b"blob 1234\0");
    assert_eq!(bytes.len(), 10 + 1234);
}

#[test]
fn blob_hash_is_sha1_of_canonical_bytes() {
    let hello = Blob { data: b"hello".to_vec() };
    assert_eq!(hex::encode(hello.calc_hash()), "b6fc4c620b67d95f953a5c1c1230aaab5db5a1b0");
    let empty = Blob { data: vec![] };
    assert_eq!(hex::encode(empty.calc_hash()), "e69de29bb2d1d6434b8b29ae775ad8c2e48c5391");
}

#[test]
fn blob_shown_as_text_or_hex() {
    assert_eq!(Blob { data: b"hello\n".to_vec() }.to_string(), "hello\n");
    assert_eq!(Blob { data: "\u{65e5}\u{672c}".as_bytes().to_vec() }.to_string(), "\u{65e5}\u{672c}");
    assert_eq!(Blob { data: vec![0xff, 0x00, 0x1a] }.to_string(), "ff001a");
    assert_eq!(Blob { data: vec![] }.to_string(), "");
}
